//! The row-appendable columnar buffer for one table, and its immutable
//! snapshot form.
//!
//! A [`MutableBatch`] holds, per column: a name, a semantic type, a
//! nullability bitmap and value storage. Every completed operation leaves all
//! columns with identical row counts. Floating-point cells are carried as
//! opaque 64-bit codes; ordering and deduplication never inspect them.

use vstd::prelude::*;

use crate::bytes::bytes_eq;

verus! {

/// Semantic type of a column.
#[derive(Clone, Copy, Debug, PartialEq, Eq, Structural)]
pub enum ColType {
    /// 64-bit float, stored as its bit pattern.
    F64,
    /// 64-bit signed integer.
    I64,
    /// 64-bit unsigned integer.
    U64,
    /// Boolean.
    Bool,
    /// Byte-string field value.
    Str,
    /// Dictionary/tag value: part of the primary key.
    Tag,
    /// Nanosecond timestamp; reserved for the column named `time`.
    Time,
}

/// The mathematical value held by one non-null cell.
pub enum Val {
    /// Float bit pattern.
    F64(u64),
    /// Signed integer, also used for timestamps.
    I64(i64),
    /// Unsigned integer.
    U64(u64),
    /// Boolean.
    Bool(bool),
    /// Byte string, also used for tag values.
    Str(Seq<u8>),
}

/// Whether a cell value is admissible in a column of type `t`.
pub open spec fn val_matches(v: Val, t: ColType) -> bool {
    match v {
        Val::F64(_) => t is F64,
        Val::I64(_) => t is I64 || t is Time,
        Val::U64(_) => t is U64,
        Val::Bool(_) => t is Bool,
        Val::Str(_) => t is Str || t is Tag,
    }
}

/// The mathematical model of one column: its name, semantic type, and one
/// optional cell per row (`None` marks a null).
pub struct ColModel {
    /// Column name.
    pub name: Seq<u8>,
    /// Semantic type.
    pub typ: ColType,
    /// One cell per row.
    pub vals: Seq<Option<Val>>,
}

impl ColModel {
    /// Every non-null cell fits the column type.
    pub open spec fn wf(self) -> bool {
        forall|i: int|
            0 <= i < self.vals.len() ==> (#[trigger] self.vals[i] matches Some(v) ==> val_matches(
                v,
                self.typ,
            ))
    }
}

/// The mathematical model of a batch: a row count and an ordered sequence of
/// column models.
pub struct BatchModel {
    /// Number of complete rows.
    pub rows: nat,
    /// The columns, in insertion order.
    pub cols: Seq<ColModel>,
}

/// The reserved name of the timestamp column.
pub open spec fn time_name() -> Seq<u8> {
    seq![116u8, 105u8, 109u8, 101u8]
}

/// Whether some column of `cols` is named `name`.
pub open spec fn has_col(cols: Seq<ColModel>, name: Seq<u8>) -> bool {
    exists|i: int| 0 <= i < cols.len() && cols[i].name == name
}

/// The index of the column named `name` (meaningful under `has_col`).
pub open spec fn col_index(cols: Seq<ColModel>, name: Seq<u8>) -> int {
    choose|i: int| 0 <= i < cols.len() && cols[i].name == name
}

/// The column of `cols` named `name` (meaningful under `has_col`).
pub open spec fn col_of(cols: Seq<ColModel>, name: Seq<u8>) -> ColModel {
    cols[col_index(cols, name)]
}

impl BatchModel {
    /// Batch invariant: all columns span every row, cells fit their column
    /// types, names are unique, and the reserved name `time` carries the
    /// timestamp type.
    pub open spec fn wf(self) -> bool {
        &&& forall|i: int|
            0 <= i < self.cols.len() ==> (#[trigger] self.cols[i]).vals.len() == self.rows
        &&& forall|i: int| 0 <= i < self.cols.len() ==> (#[trigger] self.cols[i]).wf()
        &&& forall|i: int, j: int|
            0 <= i < j < self.cols.len() ==> self.cols[i].name != self.cols[j].name
        &&& forall|i: int|
            0 <= i < self.cols.len() ==> ((#[trigger] self.cols[i]).name == time_name()
                ==> self.cols[i].typ is Time)
    }

    /// In a well-formed batch, an index found by linear search is the column
    /// index of its name.
    pub proof fn lemma_unique_index(self, i: int)
        requires
            self.wf(),
            0 <= i < self.cols.len(),
        ensures
            has_col(self.cols, self.cols[i].name),
            col_index(self.cols, self.cols[i].name) == i,
            col_of(self.cols, self.cols[i].name) == self.cols[i],
    {
        assert(has_col(self.cols, self.cols[i].name));
        let j = col_index(self.cols, self.cols[i].name);
        if j != i {
            assert(self.cols[i].name != self.cols[j].name);
        }
    }
}

/// Value storage of one column.
pub enum ColumnData {
    /// Float bit patterns.
    F64(Vec<u64>),
    /// Signed integers.
    I64(Vec<i64>),
    /// Unsigned integers.
    U64(Vec<u64>),
    /// Booleans.
    Bool(Vec<bool>),
    /// Byte strings.
    Str(Vec<Vec<u8>>),
    /// Tag values.
    Tag(Vec<Vec<u8>>),
    /// Timestamps.
    Time(Vec<i64>),
}

impl ColumnData {
    /// The semantic type this storage implements.
    pub open spec fn typ(&self) -> ColType {
        match self {
            ColumnData::F64(_) => ColType::F64,
            ColumnData::I64(_) => ColType::I64,
            ColumnData::U64(_) => ColType::U64,
            ColumnData::Bool(_) => ColType::Bool,
            ColumnData::Str(_) => ColType::Str,
            ColumnData::Tag(_) => ColType::Tag,
            ColumnData::Time(_) => ColType::Time,
        }
    }

    /// Number of stored slots (placeholders included).
    pub open spec fn spec_len(&self) -> nat {
        match self {
            ColumnData::F64(v) => v@.len(),
            ColumnData::I64(v) => v@.len(),
            ColumnData::U64(v) => v@.len(),
            ColumnData::Bool(v) => v@.len(),
            ColumnData::Str(v) => v@.len(),
            ColumnData::Tag(v) => v@.len(),
            ColumnData::Time(v) => v@.len(),
        }
    }

    /// The value stored at slot `i`.
    pub open spec fn cell(&self, i: int) -> Val {
        match self {
            ColumnData::F64(v) => Val::F64(v@[i]),
            ColumnData::I64(v) => Val::I64(v@[i]),
            ColumnData::U64(v) => Val::U64(v@[i]),
            ColumnData::Bool(v) => Val::Bool(v@[i]),
            ColumnData::Str(v) => Val::Str(v@[i]@),
            ColumnData::Tag(v) => Val::Str(v@[i]@),
            ColumnData::Time(v) => Val::I64(v@[i]),
        }
    }
}

/// One column of a batch: name, nullability bitmap and value storage. A slot
/// whose bitmap entry is false holds an ignored placeholder.
pub struct Column {
    name: Vec<u8>,
    valid: Vec<bool>,
    data: ColumnData,
}

impl Column {
    /// The model of this column: nulls folded into `Option`.
    pub closed spec fn model(&self) -> ColModel {
        ColModel {
            name: self.name@,
            typ: self.data.typ(),
            vals: Seq::new(
                self.valid@.len(),
                |i: int|
                    if self.valid@[i] {
                        Some(self.data.cell(i))
                    } else {
                        None
                    },
            ),
        }
    }

    /// Representation invariant: bitmap and storage cover the same slots.
    pub closed spec fn wf_repr(&self) -> bool {
        self.valid@.len() == self.data.spec_len()
    }
}

/// A row-appendable columnar buffer for one table.
pub struct MutableBatch {
    row_count: usize,
    columns: Vec<Column>,
}

/// An exec-level cell value, used when writing rows and reading cells back.
#[derive(Clone, Debug, PartialEq)]
pub enum FieldValue {
    /// Float bit pattern.
    F64(u64),
    /// Signed integer.
    I64(i64),
    /// Unsigned integer.
    U64(u64),
    /// Boolean.
    Bool(bool),
    /// Byte string.
    Str(Vec<u8>),
}

impl FieldValue {
    /// The mathematical value.
    pub open spec fn view(&self) -> Val {
        match self {
            FieldValue::F64(x) => Val::F64(*x),
            FieldValue::I64(x) => Val::I64(*x),
            FieldValue::U64(x) => Val::U64(*x),
            FieldValue::Bool(x) => Val::Bool(*x),
            FieldValue::Str(x) => Val::Str(x@),
        }
    }

    /// The column type a field of this value takes.
    pub open spec fn spec_typ(&self) -> ColType {
        match self {
            FieldValue::F64(_) => ColType::F64,
            FieldValue::I64(_) => ColType::I64,
            FieldValue::U64(_) => ColType::U64,
            FieldValue::Bool(_) => ColType::Bool,
            FieldValue::Str(_) => ColType::Str,
        }
    }

    /// The column type of this value, at run time.
    pub fn typ(&self) -> (r: ColType)
        ensures
            r == self.spec_typ(),
    {
        match self {
            FieldValue::F64(_) => ColType::F64,
            FieldValue::I64(_) => ColType::I64,
            FieldValue::U64(_) => ColType::U64,
            FieldValue::Bool(_) => ColType::Bool,
            FieldValue::Str(_) => ColType::Str,
        }
    }
}

/// Errors from batch mutation.
#[derive(Clone, Copy, Debug, PartialEq, Eq, Structural)]
pub enum BatchError {
    /// Two columns of the same name carry different semantic types, or a
    /// non-timestamp value was written to the reserved `time` column.
    TypeMismatch,
}

impl MutableBatch {
    /// The mathematical model of this batch.
    pub closed spec fn model(&self) -> BatchModel {
        BatchModel {
            rows: self.row_count as nat,
            cols: self.columns@.map_values(|c: Column| c.model()),
        }
    }

    /// Representation invariant, tied to the model invariant.
    pub closed spec fn wf_repr(&self) -> bool {
        &&& forall|i: int| 0 <= i < self.columns@.len() ==> (#[trigger] self.columns@[i]).wf_repr()
        &&& forall|i: int|
            0 <= i < self.columns@.len() ==> (#[trigger] self.columns@[i]).model().vals.len()
                == self.row_count as nat
    }

    /// A batch is well formed when its representation is consistent and its
    /// model satisfies the batch invariant.
    pub open spec fn wf(&self) -> bool {
        &&& self.wf_repr()
        &&& self.model().wf()
    }

    /// An empty batch: no columns, no rows.
    pub fn new() -> (r: Self)
        ensures
            r.wf(),
            r.model().rows == 0,
            r.model().cols.len() == 0,
    {
        let r = MutableBatch { row_count: 0, columns: Vec::new() };
        proof {
            assert(r.model().cols =~= Seq::<ColModel>::empty());
        }
        r
    }

    /// Number of complete rows.
    pub fn rows(&self) -> (r: usize)
        ensures
            r == self.model().rows,
    {
        self.row_count
    }

    /// Number of columns.
    pub fn num_columns(&self) -> (r: usize)
        ensures
            r == self.model().cols.len(),
    {
        self.columns.len()
    }

    /// The name of column `i`.
    pub fn column_name(&self, i: usize) -> (r: &Vec<u8>)
        requires
            i < self.model().cols.len(),
        ensures
            r@ == self.model().cols[i as int].name,
    {
        &self.columns[i].name
    }

    /// The semantic type of column `i`.
    pub fn column_type(&self, i: usize) -> (r: ColType)
        requires
            i < self.model().cols.len(),
        ensures
            r == self.model().cols[i as int].typ,
    {
        match &self.columns[i].data {
            ColumnData::F64(_) => ColType::F64,
            ColumnData::I64(_) => ColType::I64,
            ColumnData::U64(_) => ColType::U64,
            ColumnData::Bool(_) => ColType::Bool,
            ColumnData::Str(_) => ColType::Str,
            ColumnData::Tag(_) => ColType::Tag,
            ColumnData::Time(_) => ColType::Time,
        }
    }

    /// The index of the column named `name`, if one exists.
    pub fn find_column(&self, name: &[u8]) -> (r: Option<usize>)
        requires
            self.wf(),
        ensures
            match r {
                Some(i) => i < self.model().cols.len() && self.model().cols[i as int].name == name@
                    && has_col(self.model().cols, name@) && col_index(self.model().cols, name@)
                    == i as int,
                None => !has_col(self.model().cols, name@),
            },
    {
        let n = self.columns.len();
        let mut i: usize = 0;
        while i < n
            invariant
                self.wf(),
                0 <= i <= n,
                n == self.model().cols.len(),
                forall|j: int| 0 <= j < i ==> self.model().cols[j].name != name@,
            decreases n - i,
        {
            if bytes_eq(self.columns[i].name.as_slice(), name) {
                proof {
                    assert(self.model().cols[i as int].name == name@);
                    self.model().lemma_unique_index(i as int);
                }
                return Some(i);
            }
            proof {
                assert(self.model().cols[i as int].name != name@);
            }
            i += 1;
        }
        None
    }

    /// Read the cell at column `c`, row `r`: `None` for a null.
    pub fn get_cell(&self, c: usize, r: usize) -> (out: Option<FieldValue>)
        requires
            self.wf(),
            c < self.model().cols.len(),
            r < self.model().rows,
        ensures
            match out {
                Some(v) => self.model().cols[c as int].vals[r as int] == Some(v@),
                None => self.model().cols[c as int].vals[r as int] is None,
            },
    {
        let col = &self.columns[c];
        if !col.valid[r] {
            return None;
        }
        match &col.data {
            ColumnData::F64(v) => Some(FieldValue::F64(v[r])),
            ColumnData::I64(v) => Some(FieldValue::I64(v[r])),
            ColumnData::U64(v) => Some(FieldValue::U64(v[r])),
            ColumnData::Bool(v) => Some(FieldValue::Bool(v[r])),
            ColumnData::Str(v) => Some(FieldValue::Str(clone_bytes(&v[r]))),
            ColumnData::Tag(v) => Some(FieldValue::Str(clone_bytes(&v[r]))),
            ColumnData::Time(v) => Some(FieldValue::I64(v[r])),
        }
    }
}

/// Clone a byte string, keeping its contents.
pub fn clone_bytes(v: &Vec<u8>) -> (r: Vec<u8>)
    ensures
        r@ == v@,
{
    let r = v.clone();
    proof {
        assert(r@ =~= v@);
    }
    r
}

/// An immutable snapshot of a batch in execution-friendly columnar form.
/// Never mutated after creation.
pub struct RecordBatch {
    inner: MutableBatch,
}

impl RecordBatch {
    /// The mathematical model of the snapshot.
    pub closed spec fn model(&self) -> BatchModel {
        self.inner.model()
    }

    /// Snapshot invariant.
    pub closed spec fn wf(&self) -> bool {
        self.inner.wf()
    }

    /// Freeze a mutable batch into an immutable snapshot. The data moves:
    /// nothing is copied.
    pub fn freeze(batch: MutableBatch) -> (r: RecordBatch)
        ensures
            r.model() == batch.model(),
            batch.wf() ==> r.wf(),
    {
        RecordBatch { inner: batch }
    }

    /// A well-formed snapshot's model is well formed.
    pub proof fn lemma_wf_model(&self)
        requires
            self.wf(),
        ensures
            self.model().wf(),
    {
    }

    /// Read access to the columnar data.
    pub fn data(&self) -> (r: &MutableBatch)
        ensures
            r.model() == self.model(),
            r.wf() == self.wf(),
    {
        &self.inner
    }
}

} // verus!

verus! {

// ---------------------------------------------------------------------------
// Writing one row
// ---------------------------------------------------------------------------

/// One named value to be written as part of a row.
pub struct RowEntry {
    /// Target column name.
    pub name: Seq<u8>,
    /// Column type the entry demands.
    pub typ: ColType,
    /// The value.
    pub val: Val,
}

/// A run of `n` null cells.
pub open spec fn nones(n: nat) -> Seq<Option<Val>> {
    Seq::new(n, |i: int| None)
}

/// Extend a schema by one entry: an existing column must carry the entry's
/// type; a missing column is created with `rows` nulls of history. Creating a
/// non-timestamp column under the reserved name fails.
pub open spec fn schema_add(cols: Seq<ColModel>, rows: nat, e: RowEntry) -> Option<Seq<ColModel>> {
    if e.name == time_name() && !(e.typ is Time) {
        None
    } else if has_col(cols, e.name) {
        if col_of(cols, e.name).typ == e.typ {
            Some(cols)
        } else {
            None
        }
    } else {
        Some(cols.push(ColModel { name: e.name, typ: e.typ, vals: nones(rows) }))
    }
}

/// Extend a schema by every entry in order; the first conflict fails.
pub open spec fn schema_add_all(
    cols: Seq<ColModel>,
    rows: nat,
    es: Seq<RowEntry>,
) -> Option<Seq<ColModel>>
    decreases es.len(),
{
    if es.len() == 0 {
        Some(cols)
    } else {
        match schema_add(cols, rows, es[0]) {
            None => None,
            Some(cs) => schema_add_all(cs, rows, es.drop_first()),
        }
    }
}

/// The value the row assigns to the column named `name`, if any. Meaningful
/// when entry names are unique.
pub open spec fn entry_for(es: Seq<RowEntry>, name: Seq<u8>) -> Option<Val> {
    if exists|i: int| 0 <= i < es.len() && es[i].name == name {
        Some(es[choose|i: int| 0 <= i < es.len() && es[i].name == name].val)
    } else {
        None
    }
}

/// The batch after writing one row of entries: the schema is extended, then
/// every column receives its entry's value, or a null.
pub open spec fn row_written(m: BatchModel, es: Seq<RowEntry>) -> Option<BatchModel> {
    match schema_add_all(m.cols, m.rows, es) {
        None => None,
        Some(cs) => Some(
            BatchModel {
                rows: m.rows + 1,
                cols: cs.map_values(
                    |c: ColModel| ColModel {
                        name: c.name,
                        typ: c.typ,
                        vals: c.vals.push(entry_for(es, c.name)),
                    },
                ),
            },
        ),
    }
}

/// The entries a line's tag set contributes.
pub open spec fn tag_entries(tags: Seq<(Vec<u8>, Vec<u8>)>) -> Seq<RowEntry> {
    tags.map_values(
        |p: (Vec<u8>, Vec<u8>)| RowEntry { name: p.0@, typ: ColType::Tag, val: Val::Str(p.1@) },
    )
}

/// The entries a line's field set contributes.
pub open spec fn field_entries(fields: Seq<(Vec<u8>, FieldValue)>) -> Seq<RowEntry> {
    fields.map_values(
        |p: (Vec<u8>, FieldValue)| RowEntry { name: p.0@, typ: p.1.spec_typ(), val: p.1@ },
    )
}

/// Every entry one line writes: tags, then fields, then the timestamp.
pub open spec fn line_entries(
    tags: Seq<(Vec<u8>, Vec<u8>)>,
    fields: Seq<(Vec<u8>, FieldValue)>,
    time: i64,
) -> Seq<RowEntry> {
    tag_entries(tags) + field_entries(fields) + seq![
        RowEntry { name: time_name(), typ: ColType::Time, val: Val::I64(time as i64) },
    ]
}

/// Entry names are pairwise distinct.
pub open spec fn unique_names(es: Seq<RowEntry>) -> bool {
    forall|i: int, j: int| 0 <= i < j < es.len() ==> es[i].name != es[j].name
}

/// Every line entry's value fits its declared type.
proof fn lemma_line_entries_match(
    tags: Seq<(Vec<u8>, Vec<u8>)>,
    fields: Seq<(Vec<u8>, FieldValue)>,
    time: i64,
)
    ensures
        forall|k: int|
            0 <= k < line_entries(tags, fields, time).len() ==> val_matches(
                (#[trigger] line_entries(tags, fields, time)[k]).val,
                line_entries(tags, fields, time)[k].typ,
            ),
{
    let es = line_entries(tags, fields, time);
    assert forall|k: int| 0 <= k < es.len() implies val_matches(
        (#[trigger] es[k]).val,
        es[k].typ,
    ) by {
        if k < tags.len() {
            assert(es[k] == tag_entries(tags)[k]);
        } else if k < tags.len() + fields.len() {
            let f = fields[k - tags.len()].1;
            assert(es[k] == field_entries(fields)[k - tags.len()]);
            assert(val_matches(f.view(), f.spec_typ()));
        } else {
            assert(es[k].typ is Time);
        }
    }
}

/// Appending a column with a fresh name keeps every existing lookup.
proof fn lemma_col_of_push(cols: Seq<ColModel>, c: ColModel, name: Seq<u8>)
    requires
        !has_col(cols, c.name),
        has_col(cols, name),
        forall|i: int, j: int| 0 <= i < j < cols.len() ==> cols[i].name != cols[j].name,
    ensures
        has_col(cols.push(c), name),
        col_index(cols.push(c), name) == col_index(cols, name),
        col_of(cols.push(c), name) == col_of(cols, name),
{
    let i = col_index(cols, name);
    assert(cols.push(c)[i] == cols[i]);
    assert(has_col(cols.push(c), name));
    let j = col_index(cols.push(c), name);
    if j == cols.len() as int {
        assert(cols.push(c)[j] == c);
        assert(cols[i].name == name && c.name == name);
        assert(has_col(cols, c.name));
    } else {
        assert(cols.push(c)[j] == cols[j]);
    }
    if i != j {
        // Two distinct indices of `cols` would carry the same name,
        // contradicting uniqueness.
        assert(0 <= j < cols.len());
        assert(cols[j].name == name);
        assert(cols[i].name == name);
        if i < j {
            assert(cols[i].name != cols[j].name);
        } else {
            assert(cols[j].name != cols[i].name);
        }
    }
}

/// The reserved timestamp column name, as a vector.
pub fn time_name_vec() -> (r: Vec<u8>)
    ensures
        r@ == time_name(),
{
    let mut v: Vec<u8> = Vec::new();
    v.push(116);
    v.push(105);
    v.push(109);
    v.push(101);
    proof {
        assert(v@ =~= time_name());
    }
    v
}

/// Clone an exec cell value, keeping its mathematical value and type.
pub fn clone_field_value(v: &FieldValue) -> (r: FieldValue)
    ensures
        r@ == v@,
        r.spec_typ() == v.spec_typ(),
{
    match v {
        FieldValue::F64(x) => FieldValue::F64(*x),
        FieldValue::I64(x) => FieldValue::I64(*x),
        FieldValue::U64(x) => FieldValue::U64(*x),
        FieldValue::Bool(x) => FieldValue::Bool(*x),
        FieldValue::Str(x) => FieldValue::Str(clone_bytes(x)),
    }
}

/// A fresh column of `rows` nulls.
fn new_column(name: Vec<u8>, typ: ColType, rows: usize) -> (r: Column)
    ensures
        r.wf_repr(),
        r.model() == (ColModel { name: name@, typ: typ, vals: nones(rows as nat) }),
{
    let mut valid: Vec<bool> = Vec::new();
    let mut i: usize = 0;
    while i < rows
        invariant
            0 <= i <= rows,
            valid@.len() == i,
            forall|j: int| 0 <= j < i ==> !valid@[j],
        decreases rows - i,
    {
        valid.push(false);
        i += 1;
    }
    let data = match typ {
        ColType::F64 => ColumnData::F64(zero_u64s(rows)),
        ColType::I64 => ColumnData::I64(zero_i64s(rows)),
        ColType::U64 => ColumnData::U64(zero_u64s(rows)),
        ColType::Bool => ColumnData::Bool(falses(rows)),
        ColType::Str => ColumnData::Str(empty_byte_strings(rows)),
        ColType::Tag => ColumnData::Tag(empty_byte_strings(rows)),
        ColType::Time => ColumnData::Time(zero_i64s(rows)),
    };
    let r = Column { name, valid, data };
    proof {
        assert(r.model().vals =~= nones(rows as nat));
    }
    r
}

/// `n` zero placeholders.
fn zero_u64s(n: usize) -> (r: Vec<u64>)
    ensures
        r@.len() == n,
{
    let mut v: Vec<u64> = Vec::new();
    let mut i: usize = 0;
    while i < n
        invariant
            v@.len() == i,
            0 <= i <= n,
        decreases n - i,
    {
        v.push(0);
        i += 1;
    }
    v
}

/// `n` zero placeholders.
fn zero_i64s(n: usize) -> (r: Vec<i64>)
    ensures
        r@.len() == n,
{
    let mut v: Vec<i64> = Vec::new();
    let mut i: usize = 0;
    while i < n
        invariant
            v@.len() == i,
            0 <= i <= n,
        decreases n - i,
    {
        v.push(0);
        i += 1;
    }
    v
}

/// `n` false placeholders.
fn falses(n: usize) -> (r: Vec<bool>)
    ensures
        r@.len() == n,
    {
    let mut v: Vec<bool> = Vec::new();
    let mut i: usize = 0;
    while i < n
        invariant
            v@.len() == i,
            0 <= i <= n,
        decreases n - i,
    {
        v.push(false);
        i += 1;
    }
    v
}

/// `n` empty byte-string placeholders.
fn empty_byte_strings(n: usize) -> (r: Vec<Vec<u8>>)
    ensures
        r@.len() == n,
{
    let mut v: Vec<Vec<u8>> = Vec::new();
    let mut i: usize = 0;
    while i < n
        invariant
            v@.len() == i,
            0 <= i <= n,
        decreases n - i,
    {
        v.push(Vec::new());
        i += 1;
    }
    v
}

/// The model of a cell argument.
pub open spec fn opt_view(val: Option<&FieldValue>) -> Option<Val> {
    match val {
        Some(v) => Some(v.view()),
        None => None,
    }
}

/// Append one cell (or a null) to an owned column.
fn push_cell(col: Column, val: Option<&FieldValue>) -> (r: Column)
    requires
        col.wf_repr(),
        val matches Some(v) ==> val_matches(v.view(), col.model().typ),
    ensures
        r.wf_repr(),
        r.model() == (ColModel {
            name: col.model().name,
            typ: col.model().typ,
            vals: col.model().vals.push(opt_view(val)),
        }),
{
    let Column { name, mut valid, mut data } = col;
    match val {
        None => {
            valid.push(false);
            match &mut data {
                ColumnData::F64(v) => v.push(0),
                ColumnData::I64(v) => v.push(0),
                ColumnData::U64(v) => v.push(0),
                ColumnData::Bool(v) => v.push(false),
                ColumnData::Str(v) => v.push(Vec::new()),
                ColumnData::Tag(v) => v.push(Vec::new()),
                ColumnData::Time(v) => v.push(0),
            }
        },
        Some(fv) => {
            valid.push(true);
            match &mut data {
                ColumnData::F64(v) => match fv {
                    FieldValue::F64(x) => v.push(*x),
                    _ => {
                        let x = vstd::pervasive::unreached::<u64>();
                        v.push(x)
                    },
                },
                ColumnData::I64(v) => match fv {
                    FieldValue::I64(x) => v.push(*x),
                    _ => {
                        let x = vstd::pervasive::unreached::<i64>();
                        v.push(x)
                    },
                },
                ColumnData::U64(v) => match fv {
                    FieldValue::U64(x) => v.push(*x),
                    _ => {
                        let x = vstd::pervasive::unreached::<u64>();
                        v.push(x)
                    },
                },
                ColumnData::Bool(v) => match fv {
                    FieldValue::Bool(x) => v.push(*x),
                    _ => {
                        let x = vstd::pervasive::unreached::<bool>();
                        v.push(x)
                    },
                },
                ColumnData::Str(v) => match fv {
                    FieldValue::Str(x) => v.push(clone_bytes(x)),
                    _ => {
                        let x = vstd::pervasive::unreached::<Vec<u8>>();
                        v.push(x)
                    },
                },
                ColumnData::Tag(v) => match fv {
                    FieldValue::Str(x) => v.push(clone_bytes(x)),
                    _ => {
                        let x = vstd::pervasive::unreached::<Vec<u8>>();
                        v.push(x)
                    },
                },
                ColumnData::Time(v) => match fv {
                    FieldValue::I64(x) => v.push(*x),
                    _ => {
                        let x = vstd::pervasive::unreached::<i64>();
                        v.push(x)
                    },
                },
            }
        },
    }
    let r = Column { name, valid, data };
    proof {
        assert(r.model().vals =~= col.model().vals.push(opt_view(val)));
    }
    r
}

} // verus!

verus! {

/// The model of one staged exec row entry.
pub open spec fn exec_entry_model(e: (Vec<u8>, FieldValue, ColType)) -> RowEntry {
    RowEntry { name: e.0@, typ: e.2, val: e.1@ }
}

/// The models of a staged exec entry list.
pub open spec fn entries_model(v: Seq<(Vec<u8>, FieldValue, ColType)>) -> Seq<RowEntry> {
    v.map_values(|e: (Vec<u8>, FieldValue, ColType)| exec_entry_model(e))
}

impl MutableBatch {
    /// Append one row: tag values, field values, and a timestamp.
    ///
    /// The schema widens as needed; a type conflict with an existing column
    /// (including the reserved `time` column) fails with `TypeMismatch` and
    /// leaves the batch unchanged. Callers present each column name at most
    /// once per row; the line-protocol front-end resolves duplicates before
    /// calling here.
    pub fn write_row(
        &mut self,
        tags: &Vec<(Vec<u8>, Vec<u8>)>,
        fields: &Vec<(Vec<u8>, FieldValue)>,
        time: i64,
    ) -> (r: Result<(), BatchError>)
        requires
            old(self).wf(),
            old(self).model().rows + 1 <= usize::MAX,
            unique_names(line_entries(tags@, fields@, time)),
        ensures
            final(self).wf(),
            match r {
                Ok(()) => row_written(old(self).model(), line_entries(tags@, fields@, time))
                    == Some(final(self).model()),
                Err(_) => row_written(old(self).model(), line_entries(tags@, fields@, time))
                    is None && final(self).model() == old(self).model(),
            },
    {
        let ghost es = line_entries(tags@, fields@, time);
        let ghost m0 = self.model();

        // Stage the row as one entry list: tags, then fields, then time.
        let mut entries: Vec<(Vec<u8>, FieldValue, ColType)> = Vec::new();
        let nt = tags.len();
        let mut i: usize = 0;
        while i < nt
            invariant
                0 <= i <= nt,
                nt == tags@.len(),
                entries@.len() == i,
                forall|j: int|
                    0 <= j < i ==> exec_entry_model(#[trigger] entries@[j]) == tag_entries(
                        tags@,
                    )[j],
            decreases nt - i,
        {
            let t = &tags[i];
            entries.push((clone_bytes(&t.0), FieldValue::Str(clone_bytes(&t.1)), ColType::Tag));
            i += 1;
        }
        let nf = fields.len();
        let mut i: usize = 0;
        while i < nf
            invariant
                0 <= i <= nf,
                nt == tags@.len(),
                nf == fields@.len(),
                entries@.len() == nt + i,
                forall|j: int|
                    0 <= j < nt ==> exec_entry_model(#[trigger] entries@[j]) == tag_entries(
                        tags@,
                    )[j],
                forall|j: int|
                    nt <= j < nt + i ==> exec_entry_model(#[trigger] entries@[j]) == field_entries(
                        fields@,
                    )[j - nt],
            decreases nf - i,
        {
            let f = &fields[i];
            let fv = clone_field_value(&f.1);
            let ft = fv.typ();
            entries.push((clone_bytes(&f.0), fv, ft));
            i += 1;
        }
        entries.push((time_name_vec(), FieldValue::I64(time), ColType::Time));
        proof {
            assert(entries_model(entries@).len() == es.len());
            assert forall|k2: int| 0 <= k2 < es.len() implies entries_model(entries@)[k2] == es[k2]
                by {
                assert(entries_model(entries@)[k2] == exec_entry_model(entries@[k2]));
                if k2 < nt {
                    assert(es[k2] == tag_entries(tags@)[k2]);
                    assert(entries@[k2] == entries@[k2]);
                } else if k2 < nt + nf {
                    assert(exec_entry_model(entries@[k2]) == field_entries(fields@)[k2 - nt]);
                    assert(es[k2] == field_entries(fields@)[k2 - nt]);
                } else {
                    assert(k2 == nt + nf);
                    assert(es[k2] == RowEntry {
                        name: time_name(),
                        typ: ColType::Time,
                        val: Val::I64(time as i64),
                    });
                }
            }
            assert(entries_model(entries@) =~= es);
        }

        // Widen the schema, one entry at a time; on conflict, drop the
        // freshly created columns and report the mismatch.
        let orig_ncols = self.columns.len();
        let rows = self.row_count;
        let ne = entries.len();
        proof {
            assert(es.skip(0) =~= es);
        }
        let mut k: usize = 0;
        while k < ne
            invariant
                self.wf(),
                rows == m0.rows,
                self.row_count == rows,
                orig_ncols == m0.cols.len(),
                orig_ncols <= self.columns@.len(),
                ne == es.len(),
                0 <= k <= ne,
                entries@.len() == ne,
                es == entries_model(entries@),
                es == line_entries(tags@, fields@, time),
                unique_names(es),
                m0 == old(self).model(),
                m0.wf(),
                old(self).wf_repr(),
                forall|j: int| 0 <= j < orig_ncols ==> self.columns@[j] == old(self).columns@[j],
                schema_add_all(m0.cols, m0.rows, es) == schema_add_all(
                    self.model().cols,
                    m0.rows,
                    es.skip(k as int),
                ),
                forall|j: int|
                    0 <= j < k ==> has_col(self.model().cols, (#[trigger] es[j]).name) && col_of(
                        self.model().cols,
                        es[j].name,
                    ).typ == es[j].typ,
            decreases ne - k,
        {
            let typ = entries[k].2;
            let ghost cs = self.model().cols;
            proof {
                assert(exec_entry_model(entries@[k as int]) == es[k as int]);
                assert(es.skip(k as int)[0] == es[k as int]);
                assert(es.skip(k as int).drop_first() =~= es.skip(k as int + 1));
            }
            let found = self.find_column(entries[k].0.as_slice());
            match found {
                Some(ci) => {
                    let ct = self.column_type(ci);
                    proof {
                        self.model().lemma_unique_index(ci as int);
                    }
                    if ct != typ {
                        proof {
                            assert(schema_add(cs, m0.rows, es[k as int]) is None);
                            assert(schema_add_all(cs, m0.rows, es.skip(k as int)) is None);
                            assert(row_written(m0, es) is None);
                        }
                        self.columns.truncate(orig_ncols);
                        proof {
                            assert(self.columns@ =~= old(self).columns@);
                            assert(self.model().cols =~= m0.cols);
                            assert(self.model() == m0);
                            assert(old(self).wf_repr());
                            assert forall|j2: int|
                                0 <= j2 < self.columns@.len() implies (
                            #[trigger] self.columns@[j2]).wf_repr() && self.columns@[j2].model().vals.len()
                                == self.row_count as nat by {
                                assert(self.columns@[j2] == old(self).columns@[j2]);
                                assert(old(self).columns@[j2].wf_repr());
                            }
                            assert(self.wf_repr());
                            assert(self.model().wf());
                            assert(self.wf());
                        }
                        return Err(BatchError::TypeMismatch);
                    }
                    proof {
                        if es[k as int].name == time_name() {
                            assert(col_of(cs, es[k as int].name).typ is Time);
                        }
                        assert(schema_add(cs, m0.rows, es[k as int]) == Some(cs));
                    }
                },
                None => {
                    proof {
                        if es[k as int].name == time_name() {
                            let last = es.len() - 1;
                            assert(es[last] == RowEntry {
                                name: time_name(),
                                typ: ColType::Time,
                                val: Val::I64(time as i64),
                            });
                            if k as int != last {
                                assert(es[k as int].name != es[last].name);
                            }
                            assert(es[k as int].typ is Time);
                        }
                    }
                    let cname = clone_bytes(&entries[k].0);
                    let newcol = new_column(cname, typ, rows);
                    let ghost newmodel = newcol.model();
                    self.columns.push(newcol);
                    proof {
                        assert(self.model().cols =~= cs.push(newmodel));
                        assert(newmodel == ColModel {
                            name: es[k as int].name,
                            typ: es[k as int].typ,
                            vals: nones(m0.rows),
                        });
                        assert(schema_add(cs, m0.rows, es[k as int]) == Some(self.model().cols));
                        // The new column keeps the batch well formed: its name
                        // is fresh, its cells are all null.
                        assert(newmodel.wf()) by {
                            assert(forall|t: int|
                                0 <= t < m0.rows ==> nones(m0.rows)[t] is None);
                        }
                        assert(self.model().wf());
                        // Lookups of previously handled entries are unchanged.
                        assert forall|j: int| 0 <= j < k + 1 implies has_col(
                            self.model().cols,
                            (#[trigger] es[j]).name,
                        ) && col_of(self.model().cols, es[j].name).typ == es[j].typ by {
                            if j < k {
                                lemma_col_of_push(cs, newmodel, es[j].name);
                            } else {
                                BatchModel {
                                    rows: m0.rows,
                                    cols: self.model().cols,
                                }.lemma_unique_index(cs.len() as int);
                            }
                        }
                    }
                },
            }
            k += 1;
        }
        let ghost cs = self.model().cols;
        let ghost ms_a = self.model();
        proof {
            assert(es.skip(ne as int) =~= Seq::<RowEntry>::empty());
            assert(schema_add_all(cs, m0.rows, es.skip(ne as int)) == Some(cs));
            assert(schema_add_all(m0.cols, m0.rows, es) == Some(cs));
            lemma_line_entries_match(tags@, fields@, time);
        }

        // Append the row: every column receives its entry's value or a null.
        let mut oldcols: Vec<Column> = Vec::new();
        core::mem::swap(&mut oldcols, &mut self.columns);
        let ncols = oldcols.len();
        while oldcols.len() > 0
            invariant
                self.row_count == rows,
                rows == m0.rows,
                m0.rows + 1 <= usize::MAX,
                ne == es.len(),
                entries@.len() == ne,
                es == entries_model(entries@),
                unique_names(es),
                ms_a.wf(),
                ms_a.rows == m0.rows,
                ms_a.cols == cs,
                ncols == cs.len(),
                self.columns@.len() + oldcols@.len() == ncols,
                forall|k2: int|
                    0 <= k2 < ne ==> has_col(cs, (#[trigger] es[k2]).name) && col_of(
                        cs,
                        es[k2].name,
                    ).typ == es[k2].typ,
                forall|k2: int|
                    0 <= k2 < ne ==> val_matches((#[trigger] es[k2]).val, es[k2].typ),
                forall|j: int|
                    0 <= j < self.columns@.len() ==> (#[trigger] self.columns@[j]).wf_repr()
                        && self.columns@[j].model() == (ColModel {
                        name: cs[j].name,
                        typ: cs[j].typ,
                        vals: cs[j].vals.push(entry_for(es, cs[j].name)),
                    }),
                forall|j: int|
                    0 <= j < oldcols@.len() ==> (#[trigger] oldcols@[j]).wf_repr()
                        && oldcols@[j].model() == cs[self.columns@.len() + j],
            decreases oldcols@.len(),
        {
            let ghost c = self.columns@.len() as int;
            let col = oldcols.remove(0);
            let ghost cname = col.model().name;
            proof {
                assert(col.model() == cs[c]);
            }
            // Find this column's entry in the row, if any.
            let mut fidx: usize = ne;
            let mut j: usize = 0;
            while j < ne
                invariant
                    0 <= j <= ne,
                    fidx <= ne,
                    ne == es.len(),
                    entries@.len() == ne,
                    es == entries_model(entries@),
                    cname == col.model().name,
                    cname == col.name@,
                    fidx == ne ==> forall|jj: int| 0 <= jj < j ==> (#[trigger] es[jj]).name
                        != cname,
                    fidx < ne ==> fidx < j && es[fidx as int].name == cname,
                decreases ne - j,
            {
                if fidx == ne {
                    if bytes_eq(entries[j].0.as_slice(), col.name.as_slice()) {
                        proof {
                            assert(exec_entry_model(entries@[j as int]) == es[j as int]);
                        }
                        fidx = j;
                    } else {
                        proof {
                            assert(exec_entry_model(entries@[j as int]) == es[j as int]);
                        }
                    }
                }
                j += 1;
            }
            let newcol = if fidx < ne {
                proof {
                    // The found entry is the unique one for this column, and
                    // its value fits the column's type.
                    assert(entry_for(es, cname) is Some);
                    let w = choose|i2: int| 0 <= i2 < es.len() && es[i2].name == cname;
                    if w != fidx as int {
                        if w < fidx as int {
                            assert(es[w].name != es[fidx as int].name);
                        } else {
                            assert(es[fidx as int].name != es[w].name);
                        }
                    }
                    assert(entry_for(es, cname) == Some(es[fidx as int].val));
                    ms_a.lemma_unique_index(c);
                    assert(col_of(cs, cname).typ == cs[c].typ);
                    assert(es[fidx as int].typ == cs[c].typ);
                    assert(val_matches(es[fidx as int].val, cs[c].typ));
                    assert(entries@[fidx as int].1.view() == es[fidx as int].val);
                }
                push_cell(col, Some(&entries[fidx].1))
            } else {
                proof {
                    assert(forall|jj: int| 0 <= jj < ne ==> (#[trigger] es[jj]).name != cname);
                    assert(entry_for(es, cname) is None);
                }
                push_cell(col, None)
            };
            self.columns.push(newcol);
        }
        self.row_count = rows + 1;
        proof {
            let target = cs.map_values(
                |cm: ColModel| ColModel {
                    name: cm.name,
                    typ: cm.typ,
                    vals: cm.vals.push(entry_for(es, cm.name)),
                },
            );
            assert(self.model().cols =~= target);
            assert(row_written(m0, es) == Some(self.model()));
            // Well-formedness of the appended batch.
            assert forall|j: int| 0 <= j < self.model().cols.len() implies (
            #[trigger] self.model().cols[j]).vals.len() == self.model().rows && self.model().cols[j].wf()
                by {
                assert(cs[j].vals.len() == m0.rows);
                let pushed = entry_for(es, cs[j].name);
                if pushed is Some {
                    let w = choose|i2: int| 0 <= i2 < es.len() && es[i2].name == cs[j].name;
                    assert(col_of(cs, es[w].name).typ == es[w].typ);
                    ms_a.lemma_unique_index(j);
                    assert(val_matches(es[w].val, cs[j].typ));
                }
                assert forall|t: int| 0 <= t < self.model().cols[j].vals.len() implies (
                #[trigger] self.model().cols[j].vals[t] matches Some(v) ==> val_matches(
                    v,
                    self.model().cols[j].typ,
                )) by {
                    if t < m0.rows {
                        assert(self.model().cols[j].vals[t] == cs[j].vals[t]);
                    }
                }
            }
            assert(self.model().wf());
        }
        Ok(())
    }
}

} // verus!

verus! {

// ---------------------------------------------------------------------------
// Schema-widening merge of two batches
// ---------------------------------------------------------------------------

/// Two schemas are compatible when columns sharing a name share a type.
pub open spec fn compatible(a: Seq<ColModel>, b: Seq<ColModel>) -> bool {
    forall|i: int, j: int|
        0 <= i < a.len() && 0 <= j < b.len() && (#[trigger] a[i]).name == (#[trigger] b[j]).name
            ==> a[i].typ == b[j].typ
}

/// The columns of `b` that `a` lacks, in `b`'s order, each padded with
/// `arows` leading nulls.
pub open spec fn fresh_cols(b: Seq<ColModel>, a: Seq<ColModel>, arows: nat) -> Seq<ColModel>
    decreases b.len(),
{
    if b.len() == 0 {
        Seq::empty()
    } else {
        let rest = fresh_cols(b.drop_last(), a, arows);
        if has_col(a, b.last().name) {
            rest
        } else {
            rest.push(
                ColModel {
                    name: b.last().name,
                    typ: b.last().typ,
                    vals: nones(arows) + b.last().vals,
                },
            )
        }
    }
}

/// The batch resulting from appending `b`'s rows below `a`'s: the column sets
/// union, a column missing on either side is padded with nulls, and rows of
/// `a` precede rows of `b`. `None` when the schemas conflict.
pub open spec fn extended(a: BatchModel, b: BatchModel) -> Option<BatchModel> {
    if compatible(a.cols, b.cols) {
        Some(
            BatchModel {
                rows: a.rows + b.rows,
                cols: a.cols.map_values(
                    |c: ColModel| ColModel {
                        name: c.name,
                        typ: c.typ,
                        vals: c.vals + if has_col(b.cols, c.name) {
                            col_of(b.cols, c.name).vals
                        } else {
                            nones(b.rows)
                        },
                    },
                ) + fresh_cols(b.cols, a.cols, a.rows),
            },
        )
    } else {
        None
    }
}

/// Every fresh column comes from a `b` column absent in `a`; with unique
/// names in `b`, the fresh names are unique too.
proof fn lemma_fresh_cols_props(b: Seq<ColModel>, a: Seq<ColModel>, arows: nat)
    requires
        forall|i: int, j: int| 0 <= i < j < b.len() ==> b[i].name != b[j].name,
    ensures
        forall|k: int|
            0 <= k < fresh_cols(b, a, arows).len() ==> exists|j: int|
                0 <= j < b.len() && !has_col(a, b[j].name) && #[trigger] fresh_cols(
                    b,
                    a,
                    arows,
                )[k] == (ColModel {
                    name: b[j].name,
                    typ: b[j].typ,
                    vals: nones(arows) + b[j].vals,
                }),
        forall|k1: int, k2: int|
            0 <= k1 < k2 < fresh_cols(b, a, arows).len() ==> fresh_cols(b, a, arows)[k1].name
                != fresh_cols(b, a, arows)[k2].name,
    decreases b.len(),
{
    if b.len() > 0 {
        let pre = b.drop_last();
        lemma_fresh_cols_props(pre, a, arows);
        let rest = fresh_cols(pre, a, arows);
        let whole = fresh_cols(b, a, arows);
        assert forall|k: int| 0 <= k < rest.len() implies exists|j: int|
            0 <= j < b.len() && !has_col(a, b[j].name) && #[trigger] rest[k] == (ColModel {
                name: b[j].name,
                typ: b[j].typ,
                vals: nones(arows) + b[j].vals,
            }) by {
            let j0 = choose|j: int|
                0 <= j < pre.len() && !has_col(a, pre[j].name) && #[trigger] rest[k] == (ColModel {
                    name: pre[j].name,
                    typ: pre[j].typ,
                    vals: nones(arows) + pre[j].vals,
                });
            assert(pre[j0] == b[j0]);
        }
        if !has_col(a, b.last().name) {
            // The pushed name is new: every earlier fresh column carries the
            // name of an earlier `b` column, and `b`'s names are unique.
            assert forall|k: int| 0 <= k < rest.len() implies whole[k].name != b.last().name by {
                let j0 = choose|j: int|
                    0 <= j < pre.len() && !has_col(a, pre[j].name) && #[trigger] rest[k]
                        == (ColModel {
                        name: pre[j].name,
                        typ: pre[j].typ,
                        vals: nones(arows) + pre[j].vals,
                    });
                assert(b[j0].name != b[b.len() - 1].name);
            }
        }
    }
}

/// Append the elements of `src` to `dst`.
fn extend_copy<T: Copy>(dst: &mut Vec<T>, src: &Vec<T>)
    ensures
        final(dst)@ == old(dst)@ + src@,
{
    let n = src.len();
    let mut i: usize = 0;
    while i < n
        invariant
            0 <= i <= n,
            n == src@.len(),
            dst@ == old(dst)@ + src@.take(i as int),
        decreases n - i,
    {
        dst.push(src[i]);
        proof {
            assert(old(dst)@ + src@.take(i as int + 1) =~= (old(dst)@ + src@.take(i as int)).push(
                src@[i as int],
            ));
        }
        i += 1;
    }
    proof {
        assert(src@.take(n as int) =~= src@);
    }
}

/// Append clones of the byte strings of `src` to `dst`.
fn extend_byte_strings(dst: &mut Vec<Vec<u8>>, src: &Vec<Vec<u8>>)
    ensures
        final(dst)@.len() == old(dst)@.len() + src@.len(),
        forall|i: int| 0 <= i < old(dst)@.len() ==> final(dst)@[i] == old(dst)@[i],
        forall|i: int|
            old(dst)@.len() <= i < final(dst)@.len() ==> (#[trigger] final(dst)@[i])@ == src@[i
                - old(dst)@.len()]@,
{
    let n = src.len();
    let mut i: usize = 0;
    while i < n
        invariant
            0 <= i <= n,
            n == src@.len(),
            dst@.len() == old(dst)@.len() + i,
            forall|j: int| 0 <= j < old(dst)@.len() ==> dst@[j] == old(dst)@[j],
            forall|j: int|
                old(dst)@.len() <= j < dst@.len() ==> (#[trigger] dst@[j])@ == src@[j - old(
                    dst,
                )@.len()]@,
        decreases n - i,
    {
        dst.push(clone_bytes(&src[i]));
        i += 1;
    }
}

/// Append all of `src`'s cells below an owned column of the same type.
fn append_column(col: Column, src: &Column) -> (r: Column)
    requires
        col.wf_repr(),
        src.wf_repr(),
        col.model().typ == src.model().typ,
    ensures
        r.wf_repr(),
        r.model() == (ColModel {
            name: col.model().name,
            typ: col.model().typ,
            vals: col.model().vals + src.model().vals,
        }),
{
    let ghost n = col.model().vals.len() as int;
    let ghost valid0 = col.valid@;
    let Column { name, mut valid, data } = col;
    extend_copy(&mut valid, &src.valid);
    match data {
        ColumnData::F64(v) => match &src.data {
            ColumnData::F64(sv) => {
                let ghost v0 = v@;
                let mut vv = v;
                extend_copy(&mut vv, sv);
                let r = Column { name, valid, data: ColumnData::F64(vv) };
                proof {
                    assert(col.data == ColumnData::F64(v));
                    assert forall|t: int| 0 <= t < r.model().vals.len() implies r.model().vals[t]
                        == (col.model().vals + src.model().vals)[t] by {
                        if t < n {
                            assert(valid@[t] == col.valid@[t]);
                        } else {
                            assert(valid@[t] == src.valid@[t - n]);
                        }
                    }
                    assert(r.model().vals =~= col.model().vals + src.model().vals);
                }
                r
            },
            _ => vstd::pervasive::unreached::<Column>(),
        },
        ColumnData::I64(v) => match &src.data {
            ColumnData::I64(sv) => {
                let ghost v0 = v@;
                let mut vv = v;
                extend_copy(&mut vv, sv);
                let r = Column { name, valid, data: ColumnData::I64(vv) };
                proof {
                    assert(col.data == ColumnData::I64(v));
                    assert forall|t: int| 0 <= t < r.model().vals.len() implies r.model().vals[t]
                        == (col.model().vals + src.model().vals)[t] by {
                        if t < n {
                            assert(valid@[t] == col.valid@[t]);
                        } else {
                            assert(valid@[t] == src.valid@[t - n]);
                        }
                    }
                    assert(r.model().vals =~= col.model().vals + src.model().vals);
                }
                r
            },
            _ => vstd::pervasive::unreached::<Column>(),
        },
        ColumnData::U64(v) => match &src.data {
            ColumnData::U64(sv) => {
                let ghost v0 = v@;
                let mut vv = v;
                extend_copy(&mut vv, sv);
                let r = Column { name, valid, data: ColumnData::U64(vv) };
                proof {
                    assert(col.data == ColumnData::U64(v));
                    assert forall|t: int| 0 <= t < r.model().vals.len() implies r.model().vals[t]
                        == (col.model().vals + src.model().vals)[t] by {
                        if t < n {
                            assert(valid@[t] == col.valid@[t]);
                        } else {
                            assert(valid@[t] == src.valid@[t - n]);
                        }
                    }
                    assert(r.model().vals =~= col.model().vals + src.model().vals);
                }
                r
            },
            _ => vstd::pervasive::unreached::<Column>(),
        },
        ColumnData::Bool(v) => match &src.data {
            ColumnData::Bool(sv) => {
                let ghost v0 = v@;
                let mut vv = v;
                extend_copy(&mut vv, sv);
                let r = Column { name, valid, data: ColumnData::Bool(vv) };
                proof {
                    assert(col.data == ColumnData::Bool(v));
                    assert forall|t: int| 0 <= t < r.model().vals.len() implies r.model().vals[t]
                        == (col.model().vals + src.model().vals)[t] by {
                        if t < n {
                            assert(valid@[t] == col.valid@[t]);
                        } else {
                            assert(valid@[t] == src.valid@[t - n]);
                        }
                    }
                    assert(r.model().vals =~= col.model().vals + src.model().vals);
                }
                r
            },
            _ => vstd::pervasive::unreached::<Column>(),
        },
        ColumnData::Str(v) => match &src.data {
            ColumnData::Str(sv) => {
                let ghost v0 = v@;
                let mut vv = v;
                extend_byte_strings(&mut vv, sv);
                let r = Column { name, valid, data: ColumnData::Str(vv) };
                proof {
                    assert(col.data == ColumnData::Str(v));
                    assert forall|t: int| 0 <= t < r.model().vals.len() implies r.model().vals[t]
                        == (col.model().vals + src.model().vals)[t] by {
                        if t < n {
                            assert(valid@[t] == col.valid@[t]);
                        } else {
                            assert(valid@[t] == src.valid@[t - n]);
                        }
                    }
                    assert(r.model().vals =~= col.model().vals + src.model().vals);
                }
                r
            },
            _ => vstd::pervasive::unreached::<Column>(),
        },
        ColumnData::Tag(v) => match &src.data {
            ColumnData::Tag(sv) => {
                let ghost v0 = v@;
                let mut vv = v;
                extend_byte_strings(&mut vv, sv);
                let r = Column { name, valid, data: ColumnData::Tag(vv) };
                proof {
                    assert(col.data == ColumnData::Tag(v));
                    assert forall|t: int| 0 <= t < r.model().vals.len() implies r.model().vals[t]
                        == (col.model().vals + src.model().vals)[t] by {
                        if t < n {
                            assert(valid@[t] == col.valid@[t]);
                        } else {
                            assert(valid@[t] == src.valid@[t - n]);
                        }
                    }
                    assert(r.model().vals =~= col.model().vals + src.model().vals);
                }
                r
            },
            _ => vstd::pervasive::unreached::<Column>(),
        },
        ColumnData::Time(v) => match &src.data {
            ColumnData::Time(sv) => {
                let ghost v0 = v@;
                let mut vv = v;
                extend_copy(&mut vv, sv);
                let r = Column { name, valid, data: ColumnData::Time(vv) };
                proof {
                    assert(col.data == ColumnData::Time(v));
                    assert forall|t: int| 0 <= t < r.model().vals.len() implies r.model().vals[t]
                        == (col.model().vals + src.model().vals)[t] by {
                        if t < n {
                            assert(valid@[t] == col.valid@[t]);
                        } else {
                            assert(valid@[t] == src.valid@[t - n]);
                        }
                    }
                    assert(r.model().vals =~= col.model().vals + src.model().vals);
                }
                r
            },
            _ => vstd::pervasive::unreached::<Column>(),
        },
    }
}

/// Append `n` null cells below an owned column.
fn append_nulls(col: Column, n: usize) -> (r: Column)
    requires
        col.wf_repr(),
    ensures
        r.wf_repr(),
        r.model() == (ColModel {
            name: col.model().name,
            typ: col.model().typ,
            vals: col.model().vals + nones(n as nat),
        }),
{
    let mut c = col;
    let mut i: usize = 0;
    while i < n
        invariant
            0 <= i <= n,
            c.wf_repr(),
            c.model() == (ColModel {
                name: col.model().name,
                typ: col.model().typ,
                vals: col.model().vals + nones(i as nat),
            }),
        decreases n - i,
    {
        c = push_cell(c, None);
        proof {
            assert((col.model().vals + nones(i as nat)).push(None) =~= col.model().vals + nones(
                i as nat + 1,
            ));
        }
        i += 1;
    }
    c
}

impl MutableBatch {
    /// Merge another batch below this one: the column sets union, columns
    /// missing on either side are padded with nulls, and rows of `self`
    /// precede rows of `other`. Columns sharing a name must share a type;
    /// otherwise the merge fails with `TypeMismatch` and changes nothing.
    pub fn extend_from(&mut self, other: &MutableBatch) -> (r: Result<(), BatchError>)
        requires
            old(self).wf(),
            other.wf(),
            old(self).model().rows + other.model().rows <= usize::MAX,
        ensures
            final(self).wf(),
            match r {
                Ok(()) => extended(old(self).model(), other.model()) == Some(final(self).model()),
                Err(_) => extended(old(self).model(), other.model()) is None && final(self).model()
                    == old(self).model(),
            },
    {
        let ghost ma = self.model();
        let ghost mb = other.model();

        // Validate: every shared name must agree on the type.
        let nb = other.columns.len();
        let mut j: usize = 0;
        while j < nb
            invariant
                self.wf(),
                other.wf(),
                ma == self.model(),
                mb == other.model(),
                0 <= j <= nb,
                nb == mb.cols.len(),
                forall|j2: int|
                    0 <= j2 < j ==> (has_col(ma.cols, (#[trigger] mb.cols[j2]).name) ==> col_of(
                        ma.cols,
                        mb.cols[j2].name,
                    ).typ == mb.cols[j2].typ),
            decreases nb - j,
        {
            let name = other.column_name(j);
            match self.find_column(name.as_slice()) {
                Some(i) => {
                    let ta = self.column_type(i);
                    let tb = other.column_type(j);
                    if ta != tb {
                        proof {
                            assert(ma.cols[i as int].name == mb.cols[j as int].name);
                            assert(ma.cols[i as int].typ != mb.cols[j as int].typ);
                            assert(!compatible(ma.cols, mb.cols));
                        }
                        return Err(BatchError::TypeMismatch);
                    }
                },
                None => {},
            }
            j += 1;
        }
        proof {
            assert forall|i: int, j2: int|
                0 <= i < ma.cols.len() && 0 <= j2 < mb.cols.len() && (
                #[trigger] ma.cols[i]).name == (#[trigger] mb.cols[j2]).name implies ma.cols[i].typ
                == mb.cols[j2].typ by {
                ma.lemma_unique_index(i);
            }
            assert(compatible(ma.cols, mb.cols));
        }

        let rows_a = self.row_count;
        let rows_b = other.rows();

        // Widen the existing columns with `other`'s rows.
        let na = self.columns.len();
        let mut oldcols: Vec<Column> = Vec::new();
        core::mem::swap(&mut oldcols, &mut self.columns);
        while oldcols.len() > 0
            invariant
                other.wf(),
                mb == other.model(),
                ma.wf(),
                mb.wf(),
                compatible(ma.cols, mb.cols),
                rows_b == mb.rows,
                self.row_count == rows_a,
                rows_a == ma.rows,
                na == ma.cols.len(),
                self.columns@.len() + oldcols@.len() == na,
                forall|k: int|
                    0 <= k < self.columns@.len() ==> (#[trigger] self.columns@[k]).wf_repr()
                        && self.columns@[k].model() == (ColModel {
                        name: ma.cols[k].name,
                        typ: ma.cols[k].typ,
                        vals: ma.cols[k].vals + if has_col(mb.cols, ma.cols[k].name) {
                            col_of(mb.cols, ma.cols[k].name).vals
                        } else {
                            nones(mb.rows)
                        },
                    }),
                forall|k: int|
                    0 <= k < oldcols@.len() ==> (#[trigger] oldcols@[k]).wf_repr()
                        && oldcols@[k].model() == ma.cols[self.columns@.len() + k],
            decreases oldcols@.len(),
        {
            let ghost c = self.columns@.len() as int;
            let col = oldcols.remove(0);
            proof {
                assert(col.model() == ma.cols[c]);
            }
            let found = other.find_column(col.name.as_slice());
            let newcol = match found {
                Some(oc) => {
                    proof {
                        assert(other.columns@[oc as int].model() == mb.cols[oc as int]);
                        assert(col_of(mb.cols, ma.cols[c].name) == mb.cols[oc as int]);
                        assert(compatible(ma.cols, mb.cols));
                        assert(ma.cols[c].typ == mb.cols[oc as int].typ);
                    }
                    append_column(col, &other.columns[oc])
                },
                None => append_nulls(col, rows_b),
            };
            self.columns.push(newcol);
        }

        // Add `other`'s columns that this batch lacks, padded with nulls.
        let mut j: usize = 0;
        while j < nb
            invariant
                other.wf(),
                mb == other.model(),
                ma.wf(),
                mb.wf(),
                compatible(ma.cols, mb.cols),
                rows_b == mb.rows,
                rows_a == ma.rows,
                self.row_count == rows_a,
                0 <= j <= nb,
                na == ma.cols.len(),
                nb == mb.cols.len(),
                self.columns@.len() == na + fresh_cols(mb.cols.take(j as int), ma.cols, ma.rows).len(),
                forall|k: int|
                    0 <= k < self.columns@.len() ==> (#[trigger] self.columns@[k]).wf_repr(),
                forall|k: int|
                    0 <= k < na ==> (#[trigger] self.columns@[k]).model() == (ColModel {
                        name: ma.cols[k].name,
                        typ: ma.cols[k].typ,
                        vals: ma.cols[k].vals + if has_col(mb.cols, ma.cols[k].name) {
                            col_of(mb.cols, ma.cols[k].name).vals
                        } else {
                            nones(mb.rows)
                        },
                    }),
                forall|k: int|
                    na <= k < self.columns@.len() ==> (#[trigger] self.columns@[k]).model()
                        == fresh_cols(mb.cols.take(j as int), ma.cols, ma.rows)[k - na],
            decreases nb - j,
        {
            let ghost pre = fresh_cols(mb.cols.take(j as int), ma.cols, ma.rows);
            proof {
                assert(mb.cols.take(j as int + 1).drop_last() =~= mb.cols.take(j as int));
                assert(mb.cols.take(j as int + 1).last() == mb.cols[j as int]);
            }
            let name = other.column_name(j);
            proof {
                assert forall|k: int| 0 <= k < na implies (#[trigger] self.model().cols[k]).name
                    == ma.cols[k].name by {}
            }
            match self.find_existing(name.as_slice(), na, Ghost(ma.cols)) {
                Some(_) => {
                    proof {
                        assert(fresh_cols(mb.cols.take(j as int + 1), ma.cols, ma.rows) =~= pre);
                    }
                },
                None => {
                    let typ = other.column_type(j);
                    let cname = clone_bytes(name);
                    let newcol = new_column(cname, typ, rows_a);
                    let filled = append_column(newcol, &other.columns[j]);
                    proof {
                        assert(other.columns@[j as int].model() == mb.cols[j as int]);
                        assert(filled.model() == (ColModel {
                            name: mb.cols[j as int].name,
                            typ: mb.cols[j as int].typ,
                            vals: nones(ma.rows) + mb.cols[j as int].vals,
                        }));
                    }
                    self.columns.push(filled);
                    proof {
                        assert(fresh_cols(mb.cols.take(j as int + 1), ma.cols, ma.rows) =~= pre.push(
                            ColModel {
                                name: mb.cols[j as int].name,
                                typ: mb.cols[j as int].typ,
                                vals: nones(ma.rows) + mb.cols[j as int].vals,
                            },
                        ));
                    }
                },
            }
            j += 1;
        }
        self.row_count = rows_a + rows_b;

        proof {
            assert(mb.cols.take(nb as int) =~= mb.cols);
            let target = ma.cols.map_values(
                |c2: ColModel| ColModel {
                    name: c2.name,
                    typ: c2.typ,
                    vals: c2.vals + if has_col(mb.cols, c2.name) {
                        col_of(mb.cols, c2.name).vals
                    } else {
                        nones(mb.rows)
                    },
                },
            ) + fresh_cols(mb.cols, ma.cols, ma.rows);
            assert(self.model().cols =~= target);
            assert(extended(ma, mb) == Some(self.model()));
            lemma_extended_wf(ma, mb);
            assert(self.model().wf());
            assert forall|k: int| 0 <= k < self.columns@.len() implies (
            #[trigger] self.columns@[k]).wf_repr() && self.columns@[k].model().vals.len()
                == self.row_count as nat by {
                assert(self.columns@[k].model() == self.model().cols[k]);
                assert(self.model().cols[k].vals.len() == self.model().rows);
            }
            assert(self.wf_repr());
        }
        Ok(())
    }

    /// Search only the first `limit` columns for `name`; those are the
    /// columns of the original schema `orig` during a merge.
    fn find_existing(&self, name: &[u8], limit: usize, orig: Ghost<Seq<ColModel>>) -> (r: Option<
        usize,
    >)
        requires
            limit <= self.model().cols.len(),
            limit == orig@.len(),
            forall|i: int|
                0 <= i < limit ==> (#[trigger] self.model().cols[i]).name == orig@[i].name,
        ensures
            match r {
                Some(i) => i < limit && orig@[i as int].name == name@ && has_col(orig@, name@),
                None => !has_col(orig@, name@),
            },
    {
        let mut i: usize = 0;
        while i < limit
            invariant
                0 <= i <= limit,
                limit <= self.model().cols.len(),
                limit == orig@.len(),
                forall|j: int|
                    0 <= j < limit ==> (#[trigger] self.model().cols[j]).name == orig@[j].name,
                forall|j: int| 0 <= j < i ==> orig@[j].name != name@,
            decreases limit - i,
        {
            if bytes_eq(self.columns[i].name.as_slice(), name) {
                proof {
                    assert(self.model().cols[i as int].name == name@);
                    assert(orig@[i as int].name == name@);
                }
                return Some(i);
            }
            proof {
                assert(self.model().cols[i as int].name != name@);
            }
            i += 1;
        }
        None
    }
}

/// A successful merge of well-formed batches is well formed.
pub(crate) proof fn lemma_extended_wf(a: BatchModel, b: BatchModel)
    requires
        a.wf(),
        b.wf(),
        compatible(a.cols, b.cols),
    ensures
        extended(a, b) matches Some(m) ==> m.wf(),
{
    let m = extended(a, b).unwrap();
    let amap = a.cols.map_values(
        |c2: ColModel| ColModel {
            name: c2.name,
            typ: c2.typ,
            vals: c2.vals + if has_col(b.cols, c2.name) {
                col_of(b.cols, c2.name).vals
            } else {
                nones(b.rows)
            },
        },
    );
    let fresh = fresh_cols(b.cols, a.cols, a.rows);
    lemma_fresh_cols_props(b.cols, a.cols, a.rows);

    // Lengths and cell typing, column by column.
    assert forall|i: int| 0 <= i < m.cols.len() implies (#[trigger] m.cols[i]).vals.len() == m.rows
        && m.cols[i].wf() && (m.cols[i].name == time_name() ==> m.cols[i].typ is Time) by {
        if i < a.cols.len() {
            assert(m.cols[i] == amap[i]);
            if has_col(b.cols, a.cols[i].name) {
                let bj = col_index(b.cols, a.cols[i].name);
                assert(b.cols[bj].vals.len() == b.rows);
                assert(b.cols[bj].wf());
                assert(a.cols[i].typ == b.cols[bj].typ);
                assert forall|t: int| 0 <= t < m.cols[i].vals.len() implies (
                #[trigger] m.cols[i].vals[t] matches Some(v) ==> val_matches(v, m.cols[i].typ)) by {
                    if t < a.cols[i].vals.len() {
                        assert(m.cols[i].vals[t] == a.cols[i].vals[t]);
                    } else {
                        assert(m.cols[i].vals[t] == b.cols[bj].vals[t - a.cols[i].vals.len()]);
                    }
                }
            } else {
                assert forall|t: int| 0 <= t < m.cols[i].vals.len() implies (
                #[trigger] m.cols[i].vals[t] matches Some(v) ==> val_matches(v, m.cols[i].typ)) by {
                    if t < a.cols[i].vals.len() {
                        assert(m.cols[i].vals[t] == a.cols[i].vals[t]);
                    } else {
                        assert(m.cols[i].vals[t] == nones(b.rows)[t - a.cols[i].vals.len()]);
                    }
                }
            }
        } else {
            let k = i - a.cols.len();
            assert(m.cols[i] == fresh[k]);
            let j0 = choose|j: int|
                0 <= j < b.cols.len() && !has_col(a.cols, b.cols[j].name) && #[trigger] fresh[k]
                    == (ColModel {
                    name: b.cols[j].name,
                    typ: b.cols[j].typ,
                    vals: nones(a.rows) + b.cols[j].vals,
                });
            assert(b.cols[j0].vals.len() == b.rows);
            assert(b.cols[j0].wf());
            assert forall|t: int| 0 <= t < m.cols[i].vals.len() implies (
            #[trigger] m.cols[i].vals[t] matches Some(v) ==> val_matches(v, m.cols[i].typ)) by {
                if t < a.rows {
                    assert(m.cols[i].vals[t] == nones(a.rows)[t]);
                } else {
                    assert(m.cols[i].vals[t] == b.cols[j0].vals[t - a.rows]);
                }
            }
        }
    }

    // Name uniqueness across the union.
    assert forall|i: int, j: int| 0 <= i < j < m.cols.len() implies m.cols[i].name
        != m.cols[j].name by {
        if j < a.cols.len() {
            assert(m.cols[i] == amap[i] && m.cols[j] == amap[j]);
        } else if i < a.cols.len() {
            let k = j - a.cols.len();
            let j0 = choose|j2: int|
                0 <= j2 < b.cols.len() && !has_col(a.cols, b.cols[j2].name) && #[trigger] fresh[k]
                    == (ColModel {
                    name: b.cols[j2].name,
                    typ: b.cols[j2].typ,
                    vals: nones(a.rows) + b.cols[j2].vals,
                });
            assert(m.cols[i] == amap[i]);
            assert(m.cols[j].name == b.cols[j0].name);
            if m.cols[i].name == m.cols[j].name {
                assert(has_col(a.cols, b.cols[j0].name));
            }
        } else {
            assert(m.cols[i] == fresh[i - a.cols.len()]);
            assert(m.cols[j] == fresh[j - a.cols.len()]);
        }
    }
}

} // verus!

verus! {

/// The run-time column type of a column.
fn col_type_of(c: &Column) -> (r: ColType)
    ensures
        r == c.model().typ,
{
    match &c.data {
        ColumnData::F64(_) => ColType::F64,
        ColumnData::I64(_) => ColType::I64,
        ColumnData::U64(_) => ColType::U64,
        ColumnData::Bool(_) => ColType::Bool,
        ColumnData::Str(_) => ColType::Str,
        ColumnData::Tag(_) => ColType::Tag,
        ColumnData::Time(_) => ColType::Time,
    }
}

/// A deep copy of one column, cell for cell.
fn clone_column(c: &Column) -> (r: Column)
    requires
        c.wf_repr(),
    ensures
        r.wf_repr(),
        r.model() == c.model(),
{
    let typ = col_type_of(c);
    let base = new_column(clone_bytes(&c.name), typ, 0);
    let r = append_column(base, c);
    proof {
        assert(r.model().vals =~= c.model().vals);
        assert(r.model() == c.model());
    }
    r
}

impl MutableBatch {
    /// A deep copy of this batch, cell for cell.
    pub fn clone_data(&self) -> (r: MutableBatch)
        requires
            self.wf(),
        ensures
            r.wf(),
            r.model() == self.model(),
    {
        let mut columns: Vec<Column> = Vec::new();
        let n = self.columns.len();
        let mut i: usize = 0;
        while i < n
            invariant
                0 <= i <= n,
                self.wf(),
                n == self.columns@.len(),
                columns@.len() == i,
                forall|j: int|
                    0 <= j < i ==> (#[trigger] columns@[j]).wf_repr() && columns@[j].model()
                        == self.columns@[j].model(),
            decreases n - i,
        {
            columns.push(clone_column(&self.columns[i]));
            i += 1;
        }
        let r = MutableBatch { row_count: self.row_count, columns };
        proof {
            assert(r.model().cols =~= self.model().cols);
            assert(r.model() == self.model());
        }
        r
    }
}

} // verus!

verus! {

impl MutableBatch {
    /// A new batch holding the given rows of this one, in the given order.
    /// The schema is unchanged; cells are copied one for one.
    pub fn take_rows(&self, idxs: &Vec<usize>) -> (r: MutableBatch)
        requires
            self.wf(),
            forall|k: int| 0 <= k < idxs@.len() ==> (#[trigger] idxs@[k]) < self.model().rows,
        ensures
            r.wf(),
            r.model().rows == idxs@.len(),
            r.model().cols.len() == self.model().cols.len(),
            forall|c: int|
                0 <= c < self.model().cols.len() ==> (#[trigger] r.model().cols[c]).name
                    == self.model().cols[c].name && r.model().cols[c].typ
                    == self.model().cols[c].typ && r.model().cols[c].vals == Seq::new(
                    idxs@.len(),
                    |k: int| self.model().cols[c].vals[idxs@[k] as int],
                ),
    {
        let ghost m = self.model();
        let nc = self.columns.len();
        let nk = idxs.len();
        let mut columns: Vec<Column> = Vec::new();
        let mut c: usize = 0;
        while c < nc
            invariant
                self.wf(),
                m == self.model(),
                0 <= c <= nc,
                nc == m.cols.len(),
                nk == idxs@.len(),
                forall|k: int| 0 <= k < idxs@.len() ==> (#[trigger] idxs@[k]) < m.rows,
                columns@.len() == c,
                forall|c2: int|
                    0 <= c2 < c ==> (#[trigger] columns@[c2]).wf_repr() && columns@[c2].model()
                        == (ColModel {
                        name: m.cols[c2].name,
                        typ: m.cols[c2].typ,
                        vals: Seq::new(
                            idxs@.len(),
                            |k: int| m.cols[c2].vals[idxs@[k] as int],
                        ),
                    }),
            decreases nc - c,
        {
            let typ = self.column_type(c);
            let mut col = new_column(clone_bytes(self.column_name(c)), typ, 0);
            let mut k: usize = 0;
            while k < nk
                invariant
                    self.wf(),
                    m == self.model(),
                    c < nc,
                    nc == m.cols.len(),
                    0 <= k <= nk,
                    nk == idxs@.len(),
                    forall|k2: int| 0 <= k2 < idxs@.len() ==> (#[trigger] idxs@[k2]) < m.rows,
                    col.wf_repr(),
                    col.model().name == m.cols[c as int].name,
                    col.model().typ == m.cols[c as int].typ,
                    col.model().vals == Seq::new(
                        k as nat,
                        |k2: int| m.cols[c as int].vals[idxs@[k2] as int],
                    ),
                decreases nk - k,
            {
                let cell = self.get_cell(c, idxs[k]);
                let ghost before = col.model().vals;
                proof {
                    assert(opt_view(match &cell {
                        Some(v) => Some(v),
                        None => None,
                    }) == m.cols[c as int].vals[idxs@[k as int] as int]);
                }
                col = match &cell {
                    Some(v) => {
                        proof {
                            assert(m.cols[c as int].vals[idxs@[k as int] as int] == Some(v.view()));
                            assert(val_matches(v.view(), m.cols[c as int].typ));
                        }
                        push_cell(col, Some(v))
                    },
                    None => push_cell(col, None),
                };
                proof {
                    assert(col.model().vals =~= Seq::new(
                        k as nat + 1,
                        |k2: int| m.cols[c as int].vals[idxs@[k2] as int],
                    ));
                }
                k += 1;
            }
            columns.push(col);
            c += 1;
        }
        let r = MutableBatch { row_count: nk, columns };
        proof {
            assert(r.model().cols.len() == m.cols.len());
            assert forall|c2: int| 0 <= c2 < m.cols.len() implies (#[trigger] r.model().cols[c2])
                == (ColModel {
                name: m.cols[c2].name,
                typ: m.cols[c2].typ,
                vals: Seq::new(idxs@.len(), |k: int| m.cols[c2].vals[idxs@[k] as int]),
            }) by {
                assert(r.model().cols[c2] == columns@[c2].model());
            }
            // Well-formedness: gathered cells keep their types; names and the
            // reserved rule carry over from the source schema.
            assert forall|c2: int| 0 <= c2 < r.model().cols.len() implies (
            #[trigger] r.model().cols[c2]).wf() by {
                assert forall|t: int| 0 <= t < r.model().cols[c2].vals.len() implies (
                #[trigger] r.model().cols[c2].vals[t] matches Some(v) ==> val_matches(
                    v,
                    r.model().cols[c2].typ,
                )) by {
                    assert(r.model().cols[c2].vals[t] == m.cols[c2].vals[idxs@[t] as int]);
                }
            }
            assert(r.model().wf());
            assert(r.wf_repr());
        }
        r
    }
}

} // verus!

verus! {

/// Merging never invents values: a column the right batch lacks is padded
/// below with nulls, one the left batch lacks is padded above with nulls,
/// and shared columns concatenate their rows in order.
pub proof fn lemma_extend_missing_columns_become_nulls(a: BatchModel, b: BatchModel, i: int)
    requires
        extended(a, b) is Some,
        0 <= i < a.cols.len(),
        !has_col(b.cols, a.cols[i].name),
    ensures
        extended(a, b) matches Some(m) && m.cols[i].vals == a.cols[i].vals + nones(b.rows),
{
}

/// Merging fails exactly on a type conflict: two columns of one name with
/// different types.
pub proof fn lemma_extend_type_conflicts_fail(a: BatchModel, b: BatchModel)
    ensures
        extended(a, b) is Some <==> compatible(a.cols, b.cols),
{
}

/// Row order is preserved by a merge: the left batch's rows come first,
/// unchanged, and the right batch's rows follow in their order.
pub proof fn lemma_extend_preserves_row_order(a: BatchModel, b: BatchModel, i: int)
    requires
        extended(a, b) is Some,
        0 <= i < a.cols.len(),
        has_col(b.cols, a.cols[i].name),
    ensures
        extended(a, b) matches Some(m) && m.cols[i].vals == a.cols[i].vals + col_of(
            b.cols,
            a.cols[i].name,
        ).vals,
{
}

} // verus!

verus! {

// ---------------------------------------------------------------------------
// The merge is associative
// ---------------------------------------------------------------------------

/// A column padded above with `r` nulls: how a fresh column joins a merge.
pub open spec fn pad_col(c: ColModel, r: nat) -> ColModel {
    ColModel { name: c.name, typ: c.typ, vals: nones(r) + c.vals }
}

/// A column widened below by its counterpart in `b` (or by nulls): how an
/// existing column leaves a merge.
pub open spec fn widened_col(c: ColModel, b: BatchModel) -> ColModel {
    ColModel {
        name: c.name,
        typ: c.typ,
        vals: c.vals + if has_col(b.cols, c.name) {
            col_of(b.cols, c.name).vals
        } else {
            nones(b.rows)
        },
    }
}

/// The columns a merge keeps from `b`: those absent in `a`.
pub open spec fn absent_from(a: Seq<ColModel>) -> spec_fn(ColModel) -> bool {
    |c: ColModel| !has_col(a, c.name)
}

/// The padding of fresh columns, as a mapping.
pub open spec fn pad_by(r: nat) -> spec_fn(ColModel) -> ColModel {
    |c: ColModel| pad_col(c, r)
}

/// Fresh columns are the filtered, padded columns of the right batch.
proof fn lemma_fresh_as_filter(b: Seq<ColModel>, a: Seq<ColModel>, r: nat)
    ensures
        fresh_cols(b, a, r) == b.filter(absent_from(a)).map_values(pad_by(r)),
    decreases b.len(),
{
    reveal(Seq::filter);
    if b.len() == 0 {
        assert(b.filter(absent_from(a)) =~= Seq::<ColModel>::empty());
        assert(fresh_cols(b, a, r) =~= b.filter(absent_from(a)).map_values(pad_by(r)));
    } else {
        lemma_fresh_as_filter(b.drop_last(), a, r);
        let rest = b.drop_last().filter(absent_from(a)).map_values(pad_by(r));
        if absent_from(a)(b.last()) {
            assert(b.filter(absent_from(a)) == b.drop_last().filter(absent_from(a)).push(
                b.last(),
            ));
            assert(b.filter(absent_from(a)).map_values(pad_by(r)) =~= rest.push(
                pad_col(b.last(), r),
            ));
            assert(fresh_cols(b, a, r) =~= b.filter(absent_from(a)).map_values(pad_by(r)));
        } else {
            assert(b.filter(absent_from(a)) == b.drop_last().filter(absent_from(a)));
            assert(fresh_cols(b, a, r) =~= b.filter(absent_from(a)).map_values(pad_by(r)));
        }
    }
}

} // verus!

verus! {

/// Mapping preserves concatenation.
proof fn lemma_map_values_add<A, B>(u: Seq<A>, v: Seq<A>, f: spec_fn(A) -> B)
    ensures
        (u + v).map_values(f) == u.map_values(f) + v.map_values(f),
{
    assert((u + v).map_values(f) =~= u.map_values(f) + v.map_values(f));
}

/// Filtering a filtered sequence filters by the conjunction.
proof fn lemma_filter_filter(s: Seq<ColModel>, p: spec_fn(ColModel) -> bool, q: spec_fn(
    ColModel,
) -> bool)
    ensures
        s.filter(q).filter(p) == s.filter(|c: ColModel| p(c) && q(c)),
    decreases s.len(),
{
    reveal(Seq::filter);
    let conj = |c: ColModel| p(c) && q(c);
    if s.len() == 0 {
        assert(s.filter(q).filter(p) =~= s.filter(conj));
    } else {
        lemma_filter_filter(s.drop_last(), p, q);
        let pre = s.drop_last();
        assert(pre.filter(q).filter(p) == pre.filter(conj));
        if q(s.last()) {
            assert(s.filter(q) == pre.filter(q).push(s.last()));
            assert(s.filter(q).drop_last() == pre.filter(q));
            assert(s.filter(q).last() == s.last());
            if p(s.last()) {
                assert(s.filter(q).filter(p) == pre.filter(q).filter(p).push(s.last()));
                assert(s.filter(conj) == pre.filter(conj).push(s.last()));
            } else {
                assert(s.filter(q).filter(p) == pre.filter(q).filter(p));
                assert(s.filter(conj) == pre.filter(conj));
            }
        } else {
            assert(s.filter(q) == pre.filter(q));
            assert(s.filter(conj) == pre.filter(conj));
        }
        assert(s.filter(q).filter(p) =~= s.filter(conj));
    }
}

/// Filtering commutes with a name-preserving mapping.
proof fn lemma_filter_map_commute(s: Seq<ColModel>, p: spec_fn(ColModel) -> bool, f: spec_fn(
    ColModel,
) -> ColModel)
    requires
        forall|c: ColModel| #[trigger] p(f(c)) == p(c),
    ensures
        s.map_values(f).filter(p) == s.filter(p).map_values(f),
    decreases s.len(),
{
    reveal(Seq::filter);
    if s.len() == 0 {
        assert(s.map_values(f).filter(p) =~= s.filter(p).map_values(f));
    } else {
        lemma_filter_map_commute(s.drop_last(), p, f);
        let pre = s.drop_last();
        assert(s.map_values(f).drop_last() =~= pre.map_values(f));
        assert(s.map_values(f).last() == f(s.last()));
        if p(s.last()) {
            assert(p(f(s.last())));
            assert(s.map_values(f).filter(p) == s.map_values(f).drop_last().filter(p).push(
                f(s.last()),
            ));
            assert(s.filter(p) == pre.filter(p).push(s.last()));
            assert(s.filter(p).map_values(f) =~= pre.filter(p).map_values(f).push(f(s.last())));
            assert(s.map_values(f).filter(p) =~= s.filter(p).map_values(f));
        } else {
            assert(!p(f(s.last())));
            assert(s.map_values(f).filter(p) == s.map_values(f).drop_last().filter(p));
            assert(s.filter(p) == pre.filter(p));
            assert(s.map_values(f).filter(p) =~= s.filter(p).map_values(f));
        }
    }
}

/// Nulls concatenate.
proof fn lemma_nones_add(r1: nat, r2: nat)
    ensures
        nones(r1) + nones(r2) == nones(r1 + r2),
{
    assert(nones(r1) + nones(r2) =~= nones(r1 + r2));
}

/// A merged batch's columns, by name: names come from either side; an
/// existing column widens, a fresh one pads.
pub(crate) proof fn lemma_extended_cols(a: BatchModel, b: BatchModel)
    requires
        a.wf(),
        b.wf(),
        extended(a, b) is Some,
    ensures
        extended(a, b) matches Some(e) && {
            &&& e.wf()
            &&& forall|x: Seq<u8>|
                #![trigger has_col(e.cols, x)]
                has_col(e.cols, x) <==> (has_col(a.cols, x) || has_col(b.cols, x))
            &&& forall|x: Seq<u8>|
                #![trigger col_of(e.cols, x)]
                has_col(a.cols, x) ==> col_of(e.cols, x) == widened_col(col_of(a.cols, x), b)
            &&& forall|x: Seq<u8>|
                #![trigger col_of(e.cols, x)]
                !has_col(a.cols, x) && has_col(b.cols, x) ==> col_of(e.cols, x) == pad_col(
                    col_of(b.cols, x),
                    a.rows,
                )
        },
{
    let e = extended(a, b).unwrap();
    lemma_extended_wf(a, b);
    lemma_fresh_cols_props(b.cols, a.cols, a.rows);
    let fresh = fresh_cols(b.cols, a.cols, a.rows);

    assert forall|x: Seq<u8>|
        #![trigger has_col(e.cols, x)]
        has_col(e.cols, x) <==> (has_col(a.cols, x) || has_col(b.cols, x)) by {
        if has_col(e.cols, x) {
            let j = choose|j: int| 0 <= j < e.cols.len() && e.cols[j].name == x;
            if j < a.cols.len() {
                assert(e.cols[j].name == a.cols[j].name);
                assert(has_col(a.cols, x));
            } else {
                let k = j - a.cols.len();
                assert(e.cols[j] == fresh[k]);
                let j0 = choose|j0: int|
                    0 <= j0 < b.cols.len() && !has_col(a.cols, b.cols[j0].name)
                        && #[trigger] fresh[k] == (ColModel {
                        name: b.cols[j0].name,
                        typ: b.cols[j0].typ,
                        vals: nones(a.rows) + b.cols[j0].vals,
                    });
                assert(has_col(b.cols, x));
            }
        }
        if has_col(a.cols, x) {
            crate::compact::lemma_extended_has_left(a, b, x);
        } else if has_col(b.cols, x) {
            crate::compact::lemma_extended_has_right(a, b, x);
        }
    }

    assert forall|x: Seq<u8>|
        #![trigger col_of(e.cols, x)]
        has_col(a.cols, x) implies col_of(e.cols, x) == widened_col(col_of(a.cols, x), b) by {
        let i = col_index(a.cols, x);
        a.lemma_unique_index(i);
        assert(e.cols[i] == widened_col(a.cols[i], b));
        assert(e.cols[i].name == x);
        e.lemma_unique_index(i);
    }

    assert forall|x: Seq<u8>|
        #![trigger col_of(e.cols, x)]
        !has_col(a.cols, x) && has_col(b.cols, x) implies col_of(e.cols, x) == pad_col(
        col_of(b.cols, x),
        a.rows,
    ) by {
        crate::compact::lemma_fresh_has(b.cols, a.cols, a.rows, x);
        let k = choose|k: int| 0 <= k < fresh.len() && (#[trigger] fresh[k]).name == x;
        let j0 = choose|j0: int|
            0 <= j0 < b.cols.len() && !has_col(a.cols, b.cols[j0].name) && #[trigger] fresh[k]
                == (ColModel {
                name: b.cols[j0].name,
                typ: b.cols[j0].typ,
                vals: nones(a.rows) + b.cols[j0].vals,
            });
        let jb = col_index(b.cols, x);
        b.lemma_unique_index(jb);
        assert(b.cols[j0].name == x);
        if j0 != jb {
            assert(b.cols[j0].name != b.cols[jb].name);
        }
        assert(fresh[k] == pad_col(col_of(b.cols, x), a.rows));
        assert(e.cols[a.cols.len() + k] == fresh[k]);
        assert(e.cols[a.cols.len() + k].name == x);
        e.lemma_unique_index(a.cols.len() + k);
    }
}

} // verus!

verus! {

/// Pointwise-equal predicates filter alike.
proof fn lemma_filter_congruent(s: Seq<ColModel>, p: spec_fn(ColModel) -> bool, q: spec_fn(
    ColModel,
) -> bool)
    requires
        forall|c: ColModel| #[trigger] p(c) == q(c),
    ensures
        s.filter(p) == s.filter(q),
    decreases s.len(),
{
    reveal(Seq::filter);
    if s.len() > 0 {
        lemma_filter_congruent(s.drop_last(), p, q);
    }
}

/// The widening of a merge, as a mapping.
pub open spec fn widen_by(b: BatchModel) -> spec_fn(ColModel) -> ColModel {
    |c: ColModel| widened_col(c, b)
}

/// Merging is associative: widening `a` with `b` and then with `c` is the
/// same batch as widening `a` with the merge of `b` and `c` — including which
/// merges fail. Row order is preserved on every path: rows of `a`, then of
/// `b`, then of `c`.
pub proof fn lemma_extend_associative(a: BatchModel, b: BatchModel, c: BatchModel)
    requires
        a.wf(),
        b.wf(),
        c.wf(),
    ensures
        (match extended(a, b) {
            None => None::<BatchModel>,
            Some(ab) => extended(ab, c),
        }) == (match extended(b, c) {
            None => None::<BatchModel>,
            Some(bc) => extended(a, bc),
        }),
{
    broadcast use vstd::seq_lib::group_filter_ensures;

    // Definedness agrees on both sides.
    if !compatible(a.cols, b.cols) {
        // A conflict between a and b survives into b+c.
        if compatible(b.cols, c.cols) {
            let bc = extended(b, c).unwrap();
            lemma_extended_cols(b, c);
            assert forall|i: int, j: int|
                0 <= i < a.cols.len() && 0 <= j < b.cols.len() && (#[trigger] a.cols[i]).name == (
                #[trigger] b.cols[j]).name && a.cols[i].typ != b.cols[j].typ implies !compatible(
                a.cols,
                bc.cols,
            ) by {
                b.lemma_unique_index(j);
                assert(col_of(bc.cols, b.cols[j].name) == widened_col(b.cols[j], c));
                assert(has_col(bc.cols, b.cols[j].name));
                let jj = col_index(bc.cols, b.cols[j].name);
                assert(bc.cols[jj] == col_of(bc.cols, b.cols[j].name));
                assert(a.cols[i].name == bc.cols[jj].name && a.cols[i].typ != bc.cols[jj].typ);
            }
            assert(!compatible(a.cols, bc.cols));
        }
        return ;
    }
    let ab = extended(a, b).unwrap();
    lemma_extended_cols(a, b);
    if !compatible(b.cols, c.cols) {
        // A conflict between b and c survives into a+b.
        assert forall|i: int, j: int|
            0 <= i < b.cols.len() && 0 <= j < c.cols.len() && (#[trigger] b.cols[i]).name == (
            #[trigger] c.cols[j]).name && b.cols[i].typ != c.cols[j].typ implies !compatible(
            ab.cols,
            c.cols,
        ) by {
            b.lemma_unique_index(i);
            assert(has_col(ab.cols, b.cols[i].name));
            let ii = col_index(ab.cols, b.cols[i].name);
            if has_col(a.cols, b.cols[i].name) {
                assert(col_of(ab.cols, b.cols[i].name) == widened_col(
                    col_of(a.cols, b.cols[i].name),
                    b,
                ));
                let ia = col_index(a.cols, b.cols[i].name);
                a.lemma_unique_index(ia);
                assert(a.cols[ia].typ == b.cols[i].typ);
                assert(ab.cols[ii].typ == b.cols[i].typ);
            } else {
                assert(col_of(ab.cols, b.cols[i].name) == pad_col(
                    col_of(b.cols, b.cols[i].name),
                    a.rows,
                ));
                assert(ab.cols[ii].typ == b.cols[i].typ);
            }
            assert(ab.cols[ii].name == c.cols[j].name && ab.cols[ii].typ != c.cols[j].typ);
        }
        assert(!compatible(ab.cols, c.cols));
        return ;
    }
    let bc = extended(b, c).unwrap();
    lemma_extended_cols(b, c);
    if !compatible(a.cols, c.cols) {
        // A conflict between a and c survives on both sides.
        assert forall|i: int, j: int|
            0 <= i < a.cols.len() && 0 <= j < c.cols.len() && (#[trigger] a.cols[i]).name == (
            #[trigger] c.cols[j]).name && a.cols[i].typ != c.cols[j].typ implies !compatible(
            ab.cols,
            c.cols,
        ) && !compatible(a.cols, bc.cols) by {
            a.lemma_unique_index(i);
            c.lemma_unique_index(j);
            // Left: the a column is in ab with a's type.
            assert(has_col(ab.cols, a.cols[i].name));
            let ii = col_index(ab.cols, a.cols[i].name);
            assert(col_of(ab.cols, a.cols[i].name) == widened_col(col_of(a.cols, a.cols[i].name), b));
            assert(ab.cols[ii].typ == a.cols[i].typ);
            assert(ab.cols[ii].name == c.cols[j].name && ab.cols[ii].typ != c.cols[j].typ);
            // Right: the c column is in bc with c's type (equal to b's when shared).
            assert(has_col(bc.cols, c.cols[j].name));
            let jj = col_index(bc.cols, c.cols[j].name);
            if has_col(b.cols, c.cols[j].name) {
                let ib = col_index(b.cols, c.cols[j].name);
                b.lemma_unique_index(ib);
                assert(b.cols[ib].typ == c.cols[j].typ);
                assert(col_of(bc.cols, c.cols[j].name) == widened_col(b.cols[ib], c));
                assert(bc.cols[jj].typ == c.cols[j].typ);
            } else {
                assert(col_of(bc.cols, c.cols[j].name) == pad_col(col_of(c.cols, c.cols[j].name), b.rows));
                assert(bc.cols[jj].typ == c.cols[j].typ);
            }
            assert(a.cols[i].name == bc.cols[jj].name && a.cols[i].typ != bc.cols[jj].typ);
        }
        assert(!compatible(ab.cols, c.cols));
        assert(!compatible(a.cols, bc.cols));
        return ;
    }

    // All three pairs are compatible: both sides are defined.
    assert forall|i: int, j: int|
        0 <= i < ab.cols.len() && 0 <= j < c.cols.len() && (#[trigger] ab.cols[i]).name == (
        #[trigger] c.cols[j]).name implies ab.cols[i].typ == c.cols[j].typ by {
        ab.lemma_unique_index(i);
        if has_col(a.cols, ab.cols[i].name) {
            let ia = col_index(a.cols, ab.cols[i].name);
            a.lemma_unique_index(ia);
            assert(col_of(ab.cols, ab.cols[i].name) == widened_col(a.cols[ia], b));
            assert(ab.cols[i].typ == a.cols[ia].typ);
        } else {
            assert(has_col(ab.cols, ab.cols[i].name));
            assert(has_col(b.cols, ab.cols[i].name));
            let ib = col_index(b.cols, ab.cols[i].name);
            b.lemma_unique_index(ib);
            assert(col_of(ab.cols, ab.cols[i].name) == pad_col(b.cols[ib], a.rows));
            assert(ab.cols[i].typ == b.cols[ib].typ);
        }
    }
    assert(compatible(ab.cols, c.cols));
    assert forall|i: int, j: int|
        0 <= i < a.cols.len() && 0 <= j < bc.cols.len() && (#[trigger] a.cols[i]).name == (
        #[trigger] bc.cols[j]).name implies a.cols[i].typ == bc.cols[j].typ by {
        bc.lemma_unique_index(j);
        if has_col(b.cols, bc.cols[j].name) {
            let ib = col_index(b.cols, bc.cols[j].name);
            b.lemma_unique_index(ib);
            assert(col_of(bc.cols, bc.cols[j].name) == widened_col(b.cols[ib], c));
            assert(bc.cols[j].typ == b.cols[ib].typ);
        } else {
            assert(has_col(bc.cols, bc.cols[j].name));
            assert(has_col(c.cols, bc.cols[j].name));
            let ic = col_index(c.cols, bc.cols[j].name);
            c.lemma_unique_index(ic);
            assert(col_of(bc.cols, bc.cols[j].name) == pad_col(c.cols[ic], b.rows));
            assert(bc.cols[j].typ == c.cols[ic].typ);
        }
    }
    assert(compatible(a.cols, bc.cols));

    let left = extended(ab, c).unwrap();
    let right = extended(a, bc).unwrap();
    lemma_extend_associative_content(a, b, c, ab, bc, left, right);
    assert(extended(ab, c) == extended(a, bc));
}

} // verus!

verus! {

/// Both orders of a three-way merge produce the same columns.
proof fn lemma_extend_associative_content(
    a: BatchModel,
    b: BatchModel,
    c: BatchModel,
    ab: BatchModel,
    bc: BatchModel,
    left: BatchModel,
    right: BatchModel,
)
    requires
        a.wf(),
        b.wf(),
        c.wf(),
        extended(a, b) == Some(ab),
        extended(b, c) == Some(bc),
        extended(ab, c) == Some(left),
        extended(a, bc) == Some(right),
    ensures
        left == right,
{
    broadcast use vstd::seq_lib::group_filter_ensures;

    lemma_extended_cols(a, b);
    lemma_extended_cols(b, c);
    let pa = absent_from(a.cols);
    let pb = absent_from(b.cols);
    let wb = widen_by(b);
    let wc = widen_by(c);
    let wbc = widen_by(bc);
    let ar = a.rows;
    let br = b.rows;
    let cr = c.rows;
    let fresh_b = fresh_cols(b.cols, a.cols, ar);
    let fresh_cb = fresh_cols(c.cols, b.cols, br);
    lemma_fresh_as_filter(b.cols, a.cols, ar);
    lemma_fresh_as_filter(c.cols, b.cols, br);
    lemma_fresh_as_filter(bc.cols, a.cols, ar);
    lemma_fresh_as_filter(c.cols, ab.cols, ab.rows);

    // The merged column lists, in mapping form.
    assert(ab.cols =~= a.cols.map_values(wb) + fresh_b);
    assert(bc.cols =~= b.cols.map_values(wc) + fresh_cb);
    assert(left.cols =~= ab.cols.map_values(wc) + fresh_cols(c.cols, ab.cols, ab.rows));
    assert(right.cols =~= a.cols.map_values(wbc) + fresh_cols(bc.cols, a.cols, ar));

    // Split the left side's widened part.
    lemma_map_values_add(a.cols.map_values(wb), fresh_b, wc);
    assert(ab.cols.map_values(wc) =~= (a.cols.map_values(wb) + fresh_b).map_values(wc));
    assert((a.cols.map_values(wb) + fresh_b).map_values(wc) == a.cols.map_values(wb).map_values(wc)
        + fresh_b.map_values(wc));

    // Split the right side's fresh part along bc's structure.
    assert(fresh_cols(bc.cols, a.cols, ar) == bc.cols.filter(pa).map_values(pad_by(ar)));
    assert(bc.cols.filter(pa) == (b.cols.map_values(wc) + fresh_cb).filter(pa));
    assert((b.cols.map_values(wc) + fresh_cb).filter(pa) == b.cols.map_values(wc).filter(pa)
        + fresh_cb.filter(pa));
    lemma_map_values_add(b.cols.map_values(wc).filter(pa), fresh_cb.filter(pa), pad_by(ar));

    // Part one: the columns of `a`, widened twice or widened once by bc.
    assert forall|i: int| 0 <= i < a.cols.len() implies a.cols.map_values(wb).map_values(wc)[i]
        == a.cols.map_values(wbc)[i] by {
        let x = a.cols[i];
        let n = x.name;
        assert(a.cols.map_values(wb).map_values(wc)[i] == wc(wb(x)));
        assert(a.cols.map_values(wbc)[i] == wbc(x));
        if has_col(b.cols, n) {
            assert(col_of(bc.cols, n) == widened_col(col_of(b.cols, n), c));
            assert(has_col(bc.cols, n));
            assert(wc(wb(x)).vals =~= wbc(x).vals);
        } else if has_col(c.cols, n) {
            assert(col_of(bc.cols, n) == pad_col(col_of(c.cols, n), br));
            assert(has_col(bc.cols, n));
            assert(wc(wb(x)).vals =~= wbc(x).vals);
        } else {
            assert(!has_col(bc.cols, n));
            lemma_nones_add(br, cr);
            assert(wc(wb(x)).vals =~= wbc(x).vals);
        }
        assert(wc(wb(x)) == wbc(x));
    }
    assert(a.cols.map_values(wb).map_values(wc) =~= a.cols.map_values(wbc));

    // Part two: the columns fresh from `b`, padded then widened or widened
    // then padded.
    assert forall|x: ColModel| #[trigger] pa(wc(x)) == pa(x) by {
        assert(wc(x).name == x.name);
    }
    lemma_filter_map_commute(b.cols, pa, wc);
    assert(b.cols.map_values(wc).filter(pa) == b.cols.filter(pa).map_values(wc));
    assert(fresh_b.map_values(wc) == b.cols.filter(pa).map_values(pad_by(ar)).map_values(wc));
    assert forall|i: int| 0 <= i < b.cols.filter(pa).len() implies b.cols.filter(pa).map_values(
        pad_by(ar),
    ).map_values(wc)[i] == b.cols.filter(pa).map_values(wc).map_values(pad_by(ar))[i] by {
        let x = b.cols.filter(pa)[i];
        assert(wc(pad_col(x, ar)).vals =~= pad_col(wc(x), ar).vals);
        assert(wc(pad_col(x, ar)) == pad_col(wc(x), ar));
    }
    assert(fresh_b.map_values(wc) =~= b.cols.filter(pa).map_values(wc).map_values(pad_by(ar)));
    assert(fresh_b.map_values(wc) =~= b.cols.map_values(wc).filter(pa).map_values(pad_by(ar)));

    // Part three: the columns fresh from `c` on both sides.
    let conj = |x: ColModel| pa(x) && pb(x);
    let pab = absent_from(ab.cols);
    assert forall|x: ColModel| #[trigger] pab(x) == conj(x) by {
        assert(has_col(ab.cols, x.name) <==> (has_col(a.cols, x.name) || has_col(
            b.cols,
            x.name,
        )));
    }
    lemma_filter_congruent(c.cols, pab, conj);
    assert(fresh_cols(c.cols, ab.cols, ab.rows) == c.cols.filter(conj).map_values(
        pad_by(ab.rows),
    ));
    assert forall|x: ColModel| #[trigger] pa(pad_by(br)(x)) == pa(x) by {
        assert(pad_by(br)(x).name == x.name);
    }
    lemma_filter_map_commute(c.cols.filter(pb), pa, pad_by(br));
    assert(fresh_cb.filter(pa) == c.cols.filter(pb).map_values(pad_by(br)).filter(pa));
    assert(c.cols.filter(pb).map_values(pad_by(br)).filter(pa) == c.cols.filter(pb).filter(
        pa,
    ).map_values(pad_by(br)));
    lemma_filter_filter(c.cols, pa, pb);
    let conj2 = |x: ColModel| pa(x) && pb(x);
    assert(c.cols.filter(pb).filter(pa) == c.cols.filter(conj2));
    assert(fresh_cb.filter(pa).map_values(pad_by(ar)) == c.cols.filter(conj2).map_values(
        pad_by(br),
    ).map_values(pad_by(ar)));
    assert forall|i: int| 0 <= i < c.cols.filter(conj2).len() implies c.cols.filter(
        conj2,
    ).map_values(pad_by(br)).map_values(pad_by(ar))[i] == c.cols.filter(conj2).map_values(
        pad_by(ab.rows),
    )[i] by {
        let x = c.cols.filter(conj2)[i];
        lemma_nones_add(ar, br);
        assert(pad_by(ar)(pad_by(br)(x)).vals =~= pad_by(ab.rows)(x).vals);
        assert(pad_by(ar)(pad_by(br)(x)) == pad_by(ab.rows)(x));
    }
    assert(c.cols.filter(conj2).map_values(pad_by(br)).map_values(pad_by(ar)) =~= c.cols.filter(
        conj2,
    ).map_values(pad_by(ab.rows)));
    assert(conj2 == conj);

    // Assemble: both sides decompose into the same three parts.
    assert(left.cols =~= a.cols.map_values(wbc) + (b.cols.map_values(wc).filter(pa).map_values(
        pad_by(ar),
    ) + c.cols.filter(conj).map_values(pad_by(ab.rows))));
    assert(right.cols =~= a.cols.map_values(wbc) + (b.cols.map_values(wc).filter(pa).map_values(
        pad_by(ar),
    ) + c.cols.filter(conj).map_values(pad_by(ab.rows))));
    assert(left.cols == right.cols);
    assert(left.rows == right.rows);
}

} // verus!
