use vstd::prelude::*;
use crate::error::XlsxError;
use crate::grid::{
    MAX_STRING_LEN, write_error, CellWrite, SheetModel, run, step, advanced, write_for, register, first_data_row, columns_before,
    headers_hidden, in_grid, lemma_run_concat, COL_MAX, ROW_MAX,
};
use crate::header::HeaderView;
use crate::value::{CellData, Scalar, Scope, Value, value_scalars, field_scalars, list_scalars, outer_scope};

verus! {

/// Whether `v` fills exactly one cell: a scalar, an absent value, a unit,
/// or one of these inside a present value or a newtype.
pub open spec fn is_cell(v: Value) -> bool
    decreases v,
{
    match v {
        Value::Bool(_) | Value::Int(_) | Value::UInt(_) | Value::Float(_) | Value::Char(_)
        | Value::Str(_) | Value::Absent | Value::Unit | Value::UnitStruct => true,
        Value::Present(inner) => is_cell(*inner),
        Value::NewtypeStruct(inner) => is_cell(*inner),
        _ => false,
    }
}

/// The content of the one cell that `v` fills.
pub open spec fn cell_data(v: Value) -> CellData
    decreases v,
{
    match v {
        Value::Bool(b) => CellData::Bool(b),
        Value::Int(i) => CellData::Int(i),
        Value::UInt(u) => CellData::UInt(u),
        Value::Float(f) => CellData::Float(f),
        Value::Char(c) => CellData::Text(seq![c]),
        Value::Str(s) => CellData::Text(s@),
        Value::Present(inner) => cell_data(*inner),
        Value::NewtypeStruct(inner) => cell_data(*inner),
        _ => CellData::Text(Seq::empty()),
    }
}

/// The fields of a struct value, in declared order.
pub open spec fn record_fields(v: Value) -> Seq<(String, Value)> {
    match v {
        Value::Struct { fields, .. } => fields@,
        _ => Seq::empty(),
    }
}

/// Whether `v` is a record of the struct type `name`: a struct of that
/// name whose fields have distinct names and each fill one cell.
pub open spec fn is_flat_record(v: Value, name: Seq<char>) -> bool {
    &&& v matches Value::Struct { name: n, .. }
    &&& n@ == name
    &&& forall|i: int| 0 <= i < record_fields(v).len() ==> is_cell(#[trigger] record_fields(v)[i].1)
    &&& forall|i: int, j: int|
        0 <= i < j < record_fields(v).len() ==> #[trigger] record_fields(v)[i].0@
            != #[trigger] record_fields(v)[j].0@
}

/// Whether the record `v` has a field named `field`.
pub open spec fn has_field(v: Value, field: Seq<char>) -> bool {
    exists|i: int| 0 <= i < record_fields(v).len() && #[trigger] record_fields(v)[i].0@ == field
}

/// The scalars of the fields `fs` of a record of struct `name`, one per field.
pub open spec fn record_scalars(name: Seq<char>, fs: Seq<(String, Value)>) -> Seq<Scalar> {
    Seq::new(fs.len(), |i: int| ((name, fs[i].0@), cell_data(fs[i].1)))
}

/// What serializing `v` on a worksheet in state `m` leaves, and returns.
pub open spec fn serialize_model(m: SheetModel, v: Value) -> (SheetModel, Result<(), crate::error::XlsxError>) {
    run(m, value_scalars(v, outer_scope()).0)
}

/// A value that fills one cell is met as one scalar in the scope it is walked in.
pub proof fn lemma_cell_scalars(v: Value, at: Scope)
    requires
        is_cell(v),
    ensures
        value_scalars(v, at) == (seq![(at, cell_data(v))], at),
    decreases v,
{
    match v {
        Value::Present(inner) => lemma_cell_scalars(*inner, at),
        Value::NewtypeStruct(inner) => lemma_cell_scalars(*inner, at),
        _ => {},
    }
}

proof fn lemma_field_prefix_scalars(name: Seq<char>, fs: Seq<(String, Value)>, n: int, at: Scope)
    requires
        0 <= n <= fs.len(),
        at.0 == name,
        forall|i: int| 0 <= i < fs.len() ==> is_cell(#[trigger] fs[i].1),
    ensures
        field_scalars(fs, n, at).0 == record_scalars(name, fs.take(n)),
        field_scalars(fs, n, at).1.0 == name,
    decreases n,
{
    if n > 0 {
        lemma_field_prefix_scalars(name, fs, n - 1, at);
        let r = field_scalars(fs, n - 1, at);
        lemma_cell_scalars(fs[n - 1].1, (r.1.0, fs[n - 1].0@));
        assert(record_scalars(name, fs.take(n)) =~= record_scalars(name, fs.take(n - 1)) + seq![
            ((name, fs[n - 1].0@), cell_data(fs[n - 1].1)),
        ]);
    } else {
        assert(record_scalars(name, fs.take(n)) =~= Seq::empty());
    }
}

/// A record is met as one scalar per field, in declared order, each under
/// its struct and field name.
pub proof fn lemma_record_scalars(v: Value, name: Seq<char>, at: Scope)
    requires
        is_flat_record(v, name),
    ensures
        value_scalars(v, at).0 == record_scalars(name, record_fields(v)),
{
    let fs = record_fields(v);
    lemma_field_prefix_scalars(name, fs, fs.len() as int, (name, at.1));
    assert(fs.take(fs.len() as int) =~= fs);
}

/// Whether no two of the scalars `ss` are met under the same field.
pub open spec fn keys_distinct(ss: Seq<Scalar>) -> bool {
    forall|i: int, j: int| 0 <= i < j < ss.len() ==> #[trigger] ss[i].0 != #[trigger] ss[j].0
}

/// Whether `w` is the write, at its cursor before the run, of one of the
/// scalars `ss` met under a field registered in `m`.
pub open spec fn written_by(m: SheetModel, ss: Seq<Scalar>, w: CellWrite) -> bool {
    exists|i: int|
        0 <= i < ss.len() && m.layout.contains_key(#[trigger] ss[i].0) && w == write_for(
            m.layout[ss[i].0],
            ss[i].1,
        )
}

/// A run never adds or removes a layout.
pub proof fn lemma_run_keeps_fields(m: SheetModel, ss: Seq<Scalar>)
    ensures
        run(m, ss).0.layout.dom() == m.layout.dom(),
    decreases ss.len(),
{
    if ss.len() > 0 {
        lemma_run_keeps_fields(m, ss.drop_last());
        let r = run(m, ss.drop_last());
        if r.1 is Ok && r.0.layout.contains_key(ss.last().0) {
            assert(step(r.0, ss.last()).0.layout.dom() =~= r.0.layout.dom());
        }
    }
}

/// A successful run over scalars met under distinct fields: each
/// registered field among them has written its scalar at its cursor and
/// moved one row down; the other layouts are as they were; the cells
/// written before stay, and each new one is the write of such a field.
pub proof fn lemma_run_distinct(m: SheetModel, ss: Seq<Scalar>)
    requires
        keys_distinct(ss),
        run(m, ss).1 is Ok,
    ensures
        run(m, ss).0.layout.dom() == m.layout.dom(),
        forall|k: Scope|
            m.layout.contains_key(k) && (forall|i: int| 0 <= i < ss.len() ==> ss[i].0 != k)
                ==> #[trigger] run(m, ss).0.layout[k] == m.layout[k],
        forall|i: int|
            0 <= i < ss.len() && m.layout.contains_key(#[trigger] ss[i].0) ==> run(m, ss).0.layout[ss[i].0]
                == advanced(m.layout[ss[i].0]) && m.layout[ss[i].0].row < ROW_MAX,
        forall|i: int|
            0 <= i < ss.len() && m.layout.contains_key(#[trigger] ss[i].0) ==> exists|j: int|
                m.cells.len() <= j < run(m, ss).0.cells.len() && #[trigger] run(m, ss).0.cells[j]
                    == write_for(m.layout[ss[i].0], ss[i].1),
        m.cells.is_prefix_of(run(m, ss).0.cells),
        forall|j: int|
            m.cells.len() <= j < run(m, ss).0.cells.len() ==> written_by(
                m,
                ss,
                #[trigger] run(m, ss).0.cells[j],
            ),
    decreases ss.len(),
{
    lemma_run_keeps_fields(m, ss);
    if ss.len() > 0 {
        let p = ss.drop_last();
        let last = ss.last();
        let n = ss.len() - 1;
        let mp = run(m, p).0;
        assert(run(m, p).1 is Ok);
        assert(keys_distinct(p)) by {
            assert forall|i: int, j: int| 0 <= i < j < p.len() implies #[trigger] p[i].0 != #[trigger] p[j].0 by {
                assert(p[i] == ss[i] && p[j] == ss[j]);
            }
        }
        lemma_run_distinct(m, p);
        lemma_run_keeps_fields(m, p);
        assert(forall|i: int| 0 <= i < p.len() ==> p[i].0 != last.0) by {
            assert forall|i: int| 0 <= i < p.len() implies p[i].0 != last.0 by {
                assert(p[i] == ss[i] && last == ss[n]);
            }
        }
        let m2 = run(m, ss).0;
        assert(m2 == step(mp, last).0);
        let registered = m.layout.contains_key(last.0);
        if registered {
            assert(mp.layout[last.0] == m.layout[last.0]);
        }
        assert forall|k: Scope|
            m.layout.contains_key(k) && (forall|i: int| 0 <= i < ss.len() ==> ss[i].0 != k)
                implies #[trigger] m2.layout[k] == m.layout[k] by {
            assert forall|i: int| 0 <= i < p.len() implies p[i].0 != k by {
                assert(p[i] == ss[i]);
            }
            assert(ss[n].0 != k);
        }
        assert forall|i: int|
            0 <= i < ss.len() && m.layout.contains_key(#[trigger] ss[i].0) implies m2.layout[ss[i].0]
                == advanced(m.layout[ss[i].0]) && m.layout[ss[i].0].row < ROW_MAX && exists|j: int|
                m.cells.len() <= j < m2.cells.len() && #[trigger] m2.cells[j] == write_for(
                    m.layout[ss[i].0],
                    ss[i].1,
                ) by {
            if i == n {
                assert(m2.cells[mp.cells.len() as int] == write_for(m.layout[ss[i].0], ss[i].1));
            } else {
                assert(p[i] == ss[i]);
                assert(p[i].0 != last.0);
                let j = choose|j: int|
                    m.cells.len() <= j < mp.cells.len() && #[trigger] mp.cells[j] == write_for(
                        m.layout[p[i].0],
                        p[i].1,
                    );
                assert(m2.cells[j] == mp.cells[j]);
            }
        }
        assert(m.cells.is_prefix_of(m2.cells)) by {
            assert(m2.cells.subrange(0, m.cells.len() as int) =~= mp.cells.subrange(0, m.cells.len() as int));
        }
        assert forall|j: int| m.cells.len() <= j < m2.cells.len() implies written_by(
            m,
            ss,
            #[trigger] m2.cells[j],
        ) by {
            if j < mp.cells.len() {
                assert(written_by(m, p, mp.cells[j]));
                let i = choose|i: int|
                    0 <= i < p.len() && m.layout.contains_key(#[trigger] p[i].0) && mp.cells[j] == write_for(
                        m.layout[p[i].0],
                        p[i].1,
                    );
                assert(p[i] == ss[i]);
                assert(m2.cells[j] == mp.cells[j]);
            } else {
                assert(ss[n] == last);
            }
        }
    }
}

/// Scalars met under distinct fields run without error when each one met
/// under a registered field fits the cell at that field's cursor.
pub proof fn lemma_run_distinct_succeeds(m: SheetModel, ss: Seq<Scalar>)
    requires
        keys_distinct(ss),
        forall|i: int|
            0 <= i < ss.len() && m.layout.contains_key(#[trigger] ss[i].0) ==> write_error(
                m.layout[ss[i].0].row as int,
                m.layout[ss[i].0].col as int,
                ss[i].1,
            ) is None,
    ensures
        run(m, ss).1 is Ok,
    decreases ss.len(),
{
    if ss.len() > 0 {
        let p = ss.drop_last();
        let n = ss.len() - 1;
        assert(keys_distinct(p)) by {
            assert forall|i: int, j: int| 0 <= i < j < p.len() implies #[trigger] p[i].0 != #[trigger] p[j].0 by {
                assert(p[i] == ss[i] && p[j] == ss[j]);
            }
        }
        assert forall|i: int| 0 <= i < p.len() && m.layout.contains_key(#[trigger] p[i].0) implies write_error(
            m.layout[p[i].0].row as int,
            m.layout[p[i].0].col as int,
            p[i].1,
        ) is None by {
            assert(p[i] == ss[i]);
        }
        lemma_run_distinct_succeeds(m, p);
        lemma_run_distinct(m, p);
        assert forall|i: int| 0 <= i < p.len() implies p[i].0 != ss[n].0 by {
            assert(p[i] == ss[i]);
        }
        if m.layout.contains_key(ss[n].0) {
            assert(run(m, p).0.layout[ss[n].0] == m.layout[ss[n].0]);
        }
    }
}

/// Whether each field of the record `v` of struct type `name` that has a
/// layout in `m` fits the cell at its cursor: the cell lies on the grid,
/// and a text is not too long for a cell.
pub open spec fn record_fits(m: SheetModel, v: Value, name: Seq<char>) -> bool {
    forall|i: int|
        0 <= i < record_fields(v).len() && m.layout.contains_key((name, #[trigger] record_fields(v)[i].0@))
            ==> write_error(
            m.layout[(name, record_fields(v)[i].0@)].row as int,
            m.layout[(name, record_fields(v)[i].0@)].col as int,
            cell_data(record_fields(v)[i].1),
        ) is None
}

/// Serializing a record whose registered fields fit their cells succeeds.
pub proof fn lemma_record_succeeds(m: SheetModel, v: Value, name: Seq<char>)
    requires
        is_flat_record(v, name),
        record_fits(m, v, name),
    ensures
        serialize_model(m, v).1 is Ok,
{
    let ss = record_scalars(name, record_fields(v));
    lemma_record_scalars(v, name, outer_scope());
    lemma_record_keys_distinct(v, name);
    assert forall|i: int| 0 <= i < ss.len() && m.layout.contains_key(#[trigger] ss[i].0) implies write_error(
        m.layout[ss[i].0].row as int,
        m.layout[ss[i].0].col as int,
        ss[i].1,
    ) is None by {
        assert(ss[i] == ((name, record_fields(v)[i].0@), cell_data(record_fields(v)[i].1)));
        assert(m.layout.contains_key((name, record_fields(v)[i].0@)));
    }
    lemma_run_distinct_succeeds(m, ss);
}

/// The scalars of a record are met under distinct fields.
proof fn lemma_record_keys_distinct(v: Value, name: Seq<char>)
    requires
        is_flat_record(v, name),
    ensures
        keys_distinct(record_scalars(name, record_fields(v))),
{
    let ss = record_scalars(name, record_fields(v));
    assert forall|i: int, j: int| 0 <= i < j < ss.len() implies #[trigger] ss[i].0 != #[trigger] ss[j].0 by {
        assert(record_fields(v)[i].0@ != record_fields(v)[j].0@);
    }
}

/// Serializing a record: each of its registered fields writes its value
/// at its cursor and moves one row down; every other layout, of this
/// struct type or of another, is as it was; the cells written before stay,
/// and each new cell is the write of one of the record's registered fields.
pub proof fn lemma_record_serialized(m: SheetModel, v: Value, name: Seq<char>)
    requires
        is_flat_record(v, name),
        serialize_model(m, v).1 is Ok,
    ensures
        serialize_model(m, v).0 == run(m, record_scalars(name, record_fields(v))).0,
        serialize_model(m, v).0.layout.dom() == m.layout.dom(),
        forall|k: Scope|
            m.layout.contains_key(k) && !(k.0 == name && has_field(v, k.1)) ==> #[trigger] serialize_model(
                m,
                v,
            ).0.layout[k] == m.layout[k],
        forall|i: int|
            0 <= i < record_fields(v).len() && m.layout.contains_key((name, #[trigger] record_fields(v)[i].0@))
                ==> serialize_model(m, v).0.layout[(name, record_fields(v)[i].0@)] == advanced(
                m.layout[(name, record_fields(v)[i].0@)],
            ) && m.layout[(name, record_fields(v)[i].0@)].row < ROW_MAX,
        forall|i: int|
            0 <= i < record_fields(v).len() && m.layout.contains_key((name, #[trigger] record_fields(v)[i].0@))
                ==> exists|j: int|
                m.cells.len() <= j < serialize_model(m, v).0.cells.len() && #[trigger] serialize_model(
                    m,
                    v,
                ).0.cells[j] == write_for(
                    m.layout[(name, record_fields(v)[i].0@)],
                    cell_data(record_fields(v)[i].1),
                ),
        m.cells.is_prefix_of(serialize_model(m, v).0.cells),
        forall|j: int|
            m.cells.len() <= j < serialize_model(m, v).0.cells.len() ==> written_by(
                m,
                record_scalars(name, record_fields(v)),
                #[trigger] serialize_model(m, v).0.cells[j],
            ),
{
    let ss = record_scalars(name, record_fields(v));
    lemma_record_scalars(v, name, outer_scope());
    lemma_record_keys_distinct(v, name);
    lemma_run_distinct(m, ss);
    let m2 = serialize_model(m, v).0;
    assert forall|k: Scope|
        m.layout.contains_key(k) && !(k.0 == name && has_field(v, k.1)) implies #[trigger] m2.layout[k]
        == m.layout[k] by {
        assert forall|i: int| 0 <= i < ss.len() implies ss[i].0 != k by {
            if ss[i].0 == k {
                assert(record_fields(v)[i].0@ == k.1);
            }
        }
    }
    assert forall|i: int|
        0 <= i < record_fields(v).len() && m.layout.contains_key((name, #[trigger] record_fields(v)[i].0@))
            implies m2.layout[(name, record_fields(v)[i].0@)] == advanced(m.layout[(name, record_fields(v)[i].0@)])
        && m.layout[(name, record_fields(v)[i].0@)].row < ROW_MAX && exists|j: int|
        m.cells.len() <= j < m2.cells.len() && #[trigger] m2.cells[j] == write_for(
            m.layout[(name, record_fields(v)[i].0@)],
            cell_data(record_fields(v)[i].1),
        ) by {
        assert(ss[i] == ((name, record_fields(v)[i].0@), cell_data(record_fields(v)[i].1)));
        assert(m.layout.contains_key(ss[i].0));
    }
}

/// An optional field that is absent still takes its cell: serializing a
/// record whose registered fields fit their cells succeeds, the absent
/// field's cursor moves one row down, as those of the other registered
/// fields of the record do, and an empty text is written at its former
/// row, in its cell style.
pub proof fn law_absent_field_keeps_alignment(m: SheetModel, v: Value, name: Seq<char>, i: int)
    requires
        is_flat_record(v, name),
        0 <= i < record_fields(v).len(),
        record_fields(v)[i].1 is Absent,
        m.layout.contains_key((name, record_fields(v)[i].0@)),
        record_fits(m, v, name),
    ensures
        serialize_model(m, v).1 is Ok,
        serialize_model(m, v).0.layout[(name, record_fields(v)[i].0@)].row == m.layout[(
            name,
            record_fields(v)[i].0@,
        )].row + 1,
        exists|j: int|
            m.cells.len() <= j < serialize_model(m, v).0.cells.len() && #[trigger] serialize_model(
                m,
                v,
            ).0.cells[j] == write_for(m.layout[(name, record_fields(v)[i].0@)], CellData::Text(Seq::empty())),
        forall|f: Seq<char>|
            has_field(v, f) && m.layout.contains_key((name, f)) ==> #[trigger] serialize_model(
                m,
                v,
            ).0.layout[(name, f)].row == m.layout[(name, f)].row + 1,
{
    lemma_record_succeeds(m, v, name);
    lemma_record_serialized(m, v, name);
    assert forall|f: Seq<char>| has_field(v, f) && m.layout.contains_key((name, f)) implies #[trigger] serialize_model(
        m,
        v,
    ).0.layout[(name, f)].row == m.layout[(name, f)].row + 1 by {
        let k = choose|k: int| 0 <= k < record_fields(v).len() && #[trigger] record_fields(v)[k].0@ == f;
        assert(m.layout.contains_key((name, record_fields(v)[k].0@)));
    }
}

/// Whether `w` is at the cursor, in `m`, of a field registered for the
/// struct type `name`.
pub open spec fn at_cursor_of(m: SheetModel, name: Seq<char>, w: CellWrite) -> bool {
    exists|f: Seq<char>|
        #[trigger] m.layout.contains_key((name, f)) && w.row == m.layout[(name, f)].row && w.col
            == m.layout[(name, f)].col
}

/// Serializing a record of struct type `name` whose registered fields fit
/// their cells succeeds, leaves the layouts of every other struct type as
/// they were, and writes only at the cursors of fields registered for
/// `name`.
pub proof fn law_independent_regions(m: SheetModel, v: Value, name: Seq<char>)
    requires
        is_flat_record(v, name),
        record_fits(m, v, name),
    ensures
        serialize_model(m, v).1 is Ok,
        forall|k: Scope|
            m.layout.contains_key(k) && k.0 != name ==> #[trigger] serialize_model(m, v).0.layout[k]
                == m.layout[k],
        forall|j: int|
            m.cells.len() <= j < serialize_model(m, v).0.cells.len() ==> at_cursor_of(
                m,
                name,
                #[trigger] serialize_model(m, v).0.cells[j],
            ),
{
    lemma_record_succeeds(m, v, name);
    lemma_record_serialized(m, v, name);
    let ss = record_scalars(name, record_fields(v));
    let m2 = serialize_model(m, v).0;
    assert forall|j: int| m.cells.len() <= j < m2.cells.len() implies at_cursor_of(
        m,
        name,
        #[trigger] m2.cells[j],
    ) by {
        assert(written_by(m, ss, m2.cells[j]));
        let i = choose|i: int|
            0 <= i < ss.len() && m.layout.contains_key(#[trigger] ss[i].0) && m2.cells[j] == write_for(
                m.layout[ss[i].0],
                ss[i].1,
            );
        assert(ss[i].0 == (name, record_fields(v)[i].0@));
        assert(m.layout.contains_key((name, record_fields(v)[i].0@)));
    }
}

/// What serializing the first `n` of the values `vs`, one call each, in
/// order, leaves and returns; the first failing call stops the series.
pub open spec fn serialize_each(m: SheetModel, vs: Seq<Value>, n: int) -> (SheetModel, Result<(), XlsxError>)
    decreases n,
{
    if n <= 0 || n > vs.len() {
        (m, Ok(()))
    } else {
        let r = serialize_each(m, vs, n - 1);
        if r.1 is Err {
            r
        } else {
            serialize_model(r.0, vs[n - 1])
        }
    }
}

proof fn lemma_each_prefix_ok(m: SheetModel, vs: Seq<Value>, k: int, n: int)
    requires
        0 <= k <= n <= vs.len(),
        serialize_each(m, vs, n).1 is Ok,
    ensures
        serialize_each(m, vs, k).1 is Ok,
    decreases n - k,
{
    if k < n {
        lemma_each_prefix_ok(m, vs, k, n - 1);
    }
}

/// Whether `d` fits in a cell: a text is not too long.
pub open spec fn text_fits(d: CellData) -> bool {
    !(d matches CellData::Text(t) && t.len() > MAX_STRING_LEN)
}

/// The struct name of a value: that of a struct, none for another shape.
pub open spec fn record_name(v: Value) -> Seq<char> {
    match v {
        Value::Struct { name, .. } => name@,
        _ => Seq::empty(),
    }
}

/// Whether one of `records` is of the struct type `name`.
pub open spec fn names_struct(records: Seq<Value>, name: Seq<char>) -> bool {
    exists|i: int| 0 <= i < records.len() && #[trigger] record_name(records[i]) == name
}

/// Whether a series of calls serializing `records` keeps to the grid: each
/// layout of a struct type that one of the records is of has a column on
/// the grid and as many free rows from its cursor on as there are
/// records, and each field value of the records fits in a cell.
pub open spec fn series_fits(m: SheetModel, records: Seq<Value>) -> bool {
    &&& forall|key: Scope|
        #[trigger] m.layout.contains_key(key) && names_struct(records, key.0) ==> m.layout[key].row
            + records.len() <= ROW_MAX && m.layout[key].col < COL_MAX
    &&& forall|k: int, i: int|
        0 <= k < records.len() && 0 <= i < record_fields(records[k]).len() ==> #[trigger] text_fits(
            cell_data(record_fields(records[k])[i].1),
        )
}

/// A record is of the struct type it names.
proof fn lemma_record_name(v: Value)
    requires
        is_record(v),
    ensures
        is_flat_record(v, record_name(v)),
{
    let name = choose|name: Seq<char>| is_flat_record(v, name);
}

proof fn lemma_each_bounded(m: SheetModel, records: Seq<Value>, k: int)
    requires
        0 <= k <= records.len(),
        all_records(records),
        series_fits(m, records),
    ensures
        serialize_each(m, records, k).1 is Ok,
        serialize_each(m, records, k).0.layout.dom() == m.layout.dom(),
        forall|key: Scope|
            #[trigger] m.layout.contains_key(key) ==> serialize_each(m, records, k).0.layout[key].row
                <= m.layout[key].row + k && serialize_each(m, records, k).0.layout[key].col == m.layout[key].col,
    decreases k,
{
    if k > 0 {
        lemma_each_bounded(m, records, k - 1);
        let st = serialize_each(m, records, k - 1).0;
        let v = records[k - 1];
        let name = record_name(v);
        assert(is_record(v));
        lemma_record_name(v);
        assert(names_struct(records, name));
        assert forall|i: int|
            0 <= i < record_fields(v).len() && st.layout.contains_key((name, #[trigger] record_fields(v)[i].0@))
                implies write_error(
                st.layout[(name, record_fields(v)[i].0@)].row as int,
                st.layout[(name, record_fields(v)[i].0@)].col as int,
                cell_data(record_fields(v)[i].1),
            ) is None by {
            let g = record_fields(v)[i].0@;
            assert(m.layout.contains_key((name, g)));
            assert(text_fits(cell_data(record_fields(records[k - 1])[i].1)));
        }
        lemma_record_succeeds(st, v, name);
        lemma_record_serialized(st, v, name);
        let after = serialize_each(m, records, k).0;
        assert forall|key: Scope| #[trigger] m.layout.contains_key(key) implies after.layout[key].row
            <= m.layout[key].row + k && after.layout[key].col == m.layout[key].col by {
            assert(st.layout.contains_key(key));
            if key.0 == name && has_field(v, key.1) {
                let i = choose|i: int| 0 <= i < record_fields(v).len() && #[trigger] record_fields(v)[i].0@ == key.1;
                assert(st.layout.contains_key((name, record_fields(v)[i].0@)));
            }
        }
    }
}

/// Whether call `k + 1` of a series writes, in the column of the field
/// layout `h`, at the row `k` rows below its cursor.
pub open spec fn call_writes_below(m: SheetModel, vs: Seq<Value>, k: int, h: HeaderView) -> bool {
    let before = serialize_each(m, vs, k).0.cells;
    let after = serialize_each(m, vs, k + 1).0.cells;
    exists|j: int|
        before.len() <= j < after.len() && #[trigger] after[j].row == h.row + k && after[j].col == h.col
}

/// Successive calls that serialize records of struct type `name` each
/// holding the registered field `field`, keeping to the grid: every call
/// succeeds; after `k` calls the field's cursor stands `k` rows below where
/// it started, and call `k + 1` writes the field at that row, in the
/// field's column.
pub proof fn law_row_advance(m: SheetModel, records: Seq<Value>, name: Seq<char>, field: Seq<char>)
    requires
        m.layout.contains_key((name, field)),
        forall|i: int|
            0 <= i < records.len() ==> is_flat_record(#[trigger] records[i], name) && has_field(
                records[i],
                field,
            ),
        series_fits(m, records),
    ensures
        serialize_each(m, records, records.len() as int).1 is Ok,
        forall|k: int|
            0 <= k <= records.len() ==> #[trigger] serialize_each(m, records, k).0.layout[(name, field)].row
                == m.layout[(name, field)].row + k && serialize_each(m, records, k).0.layout[(name, field)].col
                == m.layout[(name, field)].col,
        forall|k: int|
            0 <= k < records.len() ==> #[trigger] call_writes_below(m, records, k, m.layout[(name, field)]),
    decreases records.len(),
{
    let n = records.len() as int;
    let key = (name, field);
    assert forall|i: int| 0 <= i < records.len() implies is_record(#[trigger] records[i]) by {
        assert(is_flat_record(records[i], name));
    }
    lemma_each_bounded(m, records, n);
    if n > 0 {
        let p = records.drop_last();
        assert forall|k: int| 0 <= k <= p.len() implies #[trigger] serialize_each(m, p, k) == serialize_each(
            m,
            records,
            k,
        ) by {
            lemma_each_agree(m, p, records, k);
        }
        lemma_each_prefix_ok(m, records, n - 1, n);
        law_row_advance(m, p, name, field);
        let before = serialize_each(m, records, n - 1).0;
        let v = records[n - 1];
        lemma_run_keeps_fields_each(m, records, n - 1);
        lemma_record_serialized(before, v, name);
        let i = choose|i: int| 0 <= i < record_fields(v).len() && #[trigger] record_fields(v)[i].0@ == field;
        assert(before.layout.contains_key((name, record_fields(v)[i].0@)));
        assert(serialize_each(m, records, n).0 == serialize_model(before, v).0);
        assert forall|k: int| 0 <= k <= records.len() implies #[trigger] serialize_each(m, records, k).0.layout[key].row
            == m.layout[key].row + k && serialize_each(m, records, k).0.layout[key].col == m.layout[key].col by {
            if k < n {
                assert(serialize_each(m, p, k) == serialize_each(m, records, k));
            }
        }
        assert forall|k: int| 0 <= k < records.len() implies #[trigger] call_writes_below(
            m,
            records,
            k,
            m.layout[key],
        ) by {
            if k < n - 1 {
                assert(call_writes_below(m, p, k, m.layout[key]));
                assert(serialize_each(m, p, k) == serialize_each(m, records, k));
                assert(serialize_each(m, p, k + 1) == serialize_each(m, records, k + 1));
            } else {
                let after = serialize_model(before, v).0;
                let j = choose|j: int|
                    before.cells.len() <= j < after.cells.len() && #[trigger] after.cells[j] == write_for(
                        before.layout[(name, record_fields(v)[i].0@)],
                        cell_data(record_fields(v)[i].1),
                    );
                assert(after.cells[j].row == m.layout[key].row + k);
            }
        }
    }
}

proof fn lemma_each_agree(m: SheetModel, p: Seq<Value>, vs: Seq<Value>, k: int)
    requires
        p.len() <= vs.len(),
        forall|i: int| 0 <= i < p.len() ==> p[i] == vs[i],
        0 <= k <= p.len(),
    ensures
        serialize_each(m, p, k) == serialize_each(m, vs, k),
    decreases k,
{
    if k > 0 {
        lemma_each_agree(m, p, vs, k - 1);
    }
}

proof fn lemma_run_keeps_fields_each(m: SheetModel, vs: Seq<Value>, n: int)
    requires
        0 <= n <= vs.len(),
    ensures
        serialize_each(m, vs, n).0.layout.dom() == m.layout.dom(),
    decreases n,
{
    if n > 0 {
        lemma_run_keeps_fields_each(m, vs, n - 1);
        let r = serialize_each(m, vs, n - 1);
        if r.1 is Ok {
            lemma_run_keeps_fields(r.0, value_scalars(vs[n - 1], outer_scope()).0);
        }
    }
}

/// A scalar met under an unregistered field changes nothing: a run gives
/// what the run without that scalar gives.
pub proof fn lemma_run_drops_unknown(m: SheetModel, ss: Seq<Scalar>, i: int)
    requires
        0 <= i < ss.len(),
        !m.layout.contains_key(ss[i].0),
    ensures
        run(m, ss) == run(m, ss.remove(i)),
    decreases ss.len(),
{
    let p = ss.drop_last();
    lemma_run_keeps_fields(m, p);
    if i == ss.len() - 1 {
        assert(ss.remove(i) =~= p);
    } else {
        assert(p[i] == ss[i]);
        lemma_run_drops_unknown(m, p, i);
        assert(ss.remove(i).drop_last() =~= p.remove(i));
        assert(ss.remove(i).last() == ss.last());
    }
}

/// A field for which no layout is registered is dropped: serializing a
/// record gives what serializing the same record without that field
/// gives, so the field brings no write, no move of a cursor and no error;
/// and the record is serialized without error when its registered fields
/// fit their cells.
pub proof fn law_unknown_field_dropped(m: SheetModel, v: Value, w: Value, name: Seq<char>, i: int)
    requires
        is_flat_record(v, name),
        0 <= i < record_fields(v).len(),
        !m.layout.contains_key((name, record_fields(v)[i].0@)),
        w matches Value::Struct { name: n, .. } && n@ == name,
        record_fields(w) == record_fields(v).remove(i),
    ensures
        serialize_model(m, v) == serialize_model(m, w),
        record_fits(m, v, name) ==> serialize_model(m, v).1 is Ok,
{
    if record_fits(m, v, name) {
        lemma_record_succeeds(m, v, name);
    }
    let fs = record_fields(v);
    let gs = record_fields(w);
    assert forall|a: int| 0 <= a < gs.len() implies is_cell(#[trigger] gs[a].1) by {
        if a < i {
            assert(gs[a] == fs[a]);
        } else {
            assert(gs[a] == fs[a + 1]);
        }
    }
    assert forall|a: int, b: int| 0 <= a < b < gs.len() implies #[trigger] gs[a].0@ != #[trigger] gs[b].0@ by {
        let a2 = if a < i { a } else { a + 1 };
        let b2 = if b < i { b } else { b + 1 };
        assert(gs[a] == fs[a2] && gs[b] == fs[b2]);
        assert(fs[a2].0@ != fs[b2].0@);
    }
    assert(is_flat_record(w, name));
    lemma_record_scalars(v, name, outer_scope());
    lemma_record_scalars(w, name, outer_scope());
    let ss = record_scalars(name, fs);
    assert(record_scalars(name, gs) =~= ss.remove(i));
    lemma_run_drops_unknown(m, ss, i);
}

/// The layout that registering `hs` at `(row, col)` keeps for its `i`-th
/// entry: the entry's own options, its column `col` plus the number of
/// entries before it that are not skipped, and its cursor on the first
/// data row.
pub open spec fn placed_header(hs: Seq<HeaderView>, i: int, row: u32, col: u16) -> HeaderView {
    HeaderView {
        row: first_data_row(hs, row) as u32,
        col: (col + columns_before(hs, i)) as u16,
        ..hs[i]
    }
}

/// Whether the `i`-th of `hs` is the last one among the first `n` that
/// is not skipped and names its field.
pub open spec fn last_of_its_field(hs: Seq<HeaderView>, i: int, n: int) -> bool {
    &&& !hs[i].skip
    &&& forall|j: int| i < j < n && !hs[j].skip ==> #[trigger] hs[j].field_name != hs[i].field_name
}

/// Whether one of the first `n` of `hs` that is not skipped names `field`.
pub open spec fn names_field(hs: Seq<HeaderView>, n: int, field: Seq<char>) -> bool {
    exists|i: int| 0 <= i < n && !hs[i].skip && #[trigger] hs[i].field_name == field
}

/// The header cell that registering `hs` at `(row, col)` writes for its
/// `i`-th entry: the entry's header text, in its header style, on `row`, in
/// the entry's column.
pub open spec fn header_cell(hs: Seq<HeaderView>, i: int, row: u32, col: u16) -> CellWrite {
    CellWrite {
        row,
        col: (col + columns_before(hs, i)) as u16,
        data: CellData::Text(hs[i].header_name),
        format: hs[i].header_format,
    }
}

/// Whether going from `m0` to `m` wrote the header cell of the `i`-th of `hs`.
pub open spec fn header_written(m0: SheetModel, m: SheetModel, hs: Seq<HeaderView>, i: int, row: u32, col: u16) -> bool {
    exists|j: int| m0.cells.len() <= j < m.cells.len() && #[trigger] m.cells[j] == header_cell(hs, i, row, col)
}

/// What a successful registration of the first `n` of `hs` leaves.
pub proof fn lemma_register_prefix(
    m: SheetModel,
    name: Seq<char>,
    hs: Seq<HeaderView>,
    row: u32,
    col: u16,
    n: int,
)
    requires
        0 <= n <= hs.len(),
        in_grid(row as int, col as int),
        register(m, name, hs, row, col, n).1 is Ok,
    ensures
        forall|i: int|
            0 <= i < n && #[trigger] last_of_its_field(hs, i, n) ==> register(
                m,
                name,
                hs,
                row,
                col,
                n,
            ).0.layout.contains_key((name, hs[i].field_name)) && register(m, name, hs, row, col, n).0.layout[(
                name,
                hs[i].field_name,
            )] == placed_header(hs, i, row, col),
        forall|k: Scope|
            !(k.0 == name && names_field(hs, n, k.1)) ==> (#[trigger] register(
                m,
                name,
                hs,
                row,
                col,
                n,
            ).0.layout.contains_key(k) == m.layout.contains_key(k)) && (m.layout.contains_key(k)
                ==> register(m, name, hs, row, col, n).0.layout[k] == m.layout[k]),
        forall|i: int| 0 <= i < n && !(#[trigger] hs[i]).skip ==> col + columns_before(hs, i) < COL_MAX,
        headers_hidden(hs) ==> register(m, name, hs, row, col, n).0.cells == m.cells,
        m.cells.is_prefix_of(register(m, name, hs, row, col, n).0.cells),
        forall|j: int|
            m.cells.len() <= j < register(m, name, hs, row, col, n).0.cells.len() ==> (#[trigger] register(
                m,
                name,
                hs,
                row,
                col,
                n,
            ).0.cells[j]).row == row,
    decreases n,
{
    if n > 0 {
        let r = register(m, name, hs, row, col, n - 1);
        assert(r.1 is Ok);
        lemma_register_prefix(m, name, hs, row, col, n - 1);
        let h = hs[n - 1];
        let r2 = register(m, name, hs, row, col, n);
        if h.skip {
            assert(r2 == r);
            assert forall|i: int| 0 <= i < n && #[trigger] last_of_its_field(hs, i, n) implies r2.0.layout.contains_key(
                (name, hs[i].field_name),
            ) && r2.0.layout[(name, hs[i].field_name)] == placed_header(hs, i, row, col) by {
                assert(i != n - 1);
                assert(last_of_its_field(hs, i, n - 1));
            }
            assert forall|k: Scope| !(k.0 == name && names_field(hs, n, k.1)) implies (#[trigger] r2.0.layout.contains_key(k)
                == m.layout.contains_key(k)) && (m.layout.contains_key(k) ==> r2.0.layout[k] == m.layout[k]) by {
                if k.0 == name && names_field(hs, n - 1, k.1) {
                    let i = choose|i: int| 0 <= i < n - 1 && !hs[i].skip && #[trigger] hs[i].field_name == k.1;
                    assert(names_field(hs, n, k.1));
                }
                assert(r.0.layout.contains_key(k) == m.layout.contains_key(k));
            }
        } else {
            let key = (name, h.field_name);
            assert(r2.0.layout == r.0.layout.insert(key, placed_header(hs, n - 1, row, col)));
            assert forall|i: int| 0 <= i < n && #[trigger] last_of_its_field(hs, i, n) implies r2.0.layout.contains_key(
                (name, hs[i].field_name),
            ) && r2.0.layout[(name, hs[i].field_name)] == placed_header(hs, i, row, col) by {
                if i != n - 1 {
                    assert(hs[n - 1].field_name != hs[i].field_name);
                    assert(last_of_its_field(hs, i, n - 1));
                }
            }
            assert forall|k: Scope| !(k.0 == name && names_field(hs, n, k.1)) implies (#[trigger] r2.0.layout.contains_key(k)
                == m.layout.contains_key(k)) && (m.layout.contains_key(k) ==> r2.0.layout[k] == m.layout[k]) by {
                if k == key {
                    assert(names_field(hs, n, k.1));
                }
                if k.0 == name && names_field(hs, n - 1, k.1) {
                    let i = choose|i: int| 0 <= i < n - 1 && !hs[i].skip && #[trigger] hs[i].field_name == k.1;
                    assert(names_field(hs, n, k.1));
                }
                assert(r.0.layout.contains_key(k) == m.layout.contains_key(k));
            }
            assert(m.cells.is_prefix_of(r2.0.cells)) by {
                assert(r2.0.cells.subrange(0, m.cells.len() as int) =~= r.0.cells.subrange(0, m.cells.len() as int));
            }
        }
    }
}

/// Whether registering `hs` at `(row, col)` keeps to the grid: the start
/// cell lies on it, each entry that is not skipped gets a column on it,
/// and, unless headers are hidden, the header text of each such entry
/// fits in a cell.
pub open spec fn layout_fits(hs: Seq<HeaderView>, row: u32, col: u16) -> bool {
    &&& in_grid(row as int, col as int)
    &&& forall|i: int|
        0 <= i < hs.len() && !(#[trigger] hs[i]).skip ==> col + columns_before(hs, i) < COL_MAX && (
        !headers_hidden(hs) ==> hs[i].header_name.len() <= MAX_STRING_LEN)
}

/// A registration that keeps to the grid succeeds.
pub proof fn lemma_register_succeeds(
    m: SheetModel,
    name: Seq<char>,
    hs: Seq<HeaderView>,
    row: u32,
    col: u16,
    n: int,
)
    requires
        0 <= n <= hs.len(),
        layout_fits(hs, row, col),
    ensures
        register(m, name, hs, row, col, n).1 is Ok,
    decreases n,
{
    if n > 0 {
        lemma_register_succeeds(m, name, hs, row, col, n - 1);
        assert(!hs[n - 1].skip ==> col + columns_before(hs, n - 1) < COL_MAX);
    }
}

/// With headers shown, a successful registration of the first `n` of `hs`
/// writes the header cell of each entry that is not skipped.
proof fn lemma_register_headers(
    m: SheetModel,
    name: Seq<char>,
    hs: Seq<HeaderView>,
    row: u32,
    col: u16,
    n: int,
)
    requires
        0 <= n <= hs.len(),
        !headers_hidden(hs),
        register(m, name, hs, row, col, n).1 is Ok,
    ensures
        forall|i: int|
            0 <= i < n && !(#[trigger] hs[i]).skip ==> header_written(
                m,
                register(m, name, hs, row, col, n).0,
                hs,
                i,
                row,
                col,
            ),
    decreases n,
{
    if n > 0 {
        let r = register(m, name, hs, row, col, n - 1);
        let r2 = register(m, name, hs, row, col, n);
        assert(r.1 is Ok);
        lemma_register_headers(m, name, hs, row, col, n - 1);
        if !hs[n - 1].skip {
            assert(r2.0.cells == r.0.cells.push(header_cell(hs, n - 1, row, col)));
        }
        assert forall|i: int| 0 <= i < n && !(#[trigger] hs[i]).skip implies header_written(
            m,
            r2.0,
            hs,
            i,
            row,
            col,
        ) by {
            if i == n - 1 {
                assert(r2.0.cells[r.0.cells.len() as int] == header_cell(hs, i, row, col));
                assert(m.cells.len() <= r.0.cells.len()) by {
                    lemma_register_prefix(m, name, hs, row, col, n - 1);
                }
            } else {
                assert(header_written(m, r.0, hs, i, row, col));
                let j = choose|j: int|
                    m.cells.len() <= j < r.0.cells.len() && #[trigger] r.0.cells[j] == header_cell(hs, i, row, col);
                assert(r2.0.cells[j] == r.0.cells[j]);
            }
        }
    }
}

/// Registering the same layouts for the same struct type at the same
/// place, keeping to the grid, succeeds and gives each field the same
/// column, and the same cursor, whatever was registered before.
pub proof fn law_column_stability(
    m1: SheetModel,
    m2: SheetModel,
    name: Seq<char>,
    hs: Seq<HeaderView>,
    row: u32,
    col: u16,
)
    requires
        layout_fits(hs, row, col),
    ensures
        register(m1, name, hs, row, col, hs.len() as int).1 is Ok,
        register(m2, name, hs, row, col, hs.len() as int).1 is Ok,
        forall|i: int|
            0 <= i < hs.len() && !hs[i].skip ==> #[trigger] register(m1, name, hs, row, col, hs.len() as int).0.layout[(
                name,
                hs[i].field_name,
            )] == register(m2, name, hs, row, col, hs.len() as int).0.layout[(name, hs[i].field_name)],
{
    let n = hs.len() as int;
    lemma_register_succeeds(m1, name, hs, row, col, n);
    lemma_register_succeeds(m2, name, hs, row, col, n);
    lemma_register_prefix(m1, name, hs, row, col, n);
    lemma_register_prefix(m2, name, hs, row, col, n);
    assert forall|i: int| 0 <= i < hs.len() && !hs[i].skip implies #[trigger] register(
        m1,
        name,
        hs,
        row,
        col,
        n,
    ).0.layout[(name, hs[i].field_name)] == register(m2, name, hs, row, col, n).0.layout[(name, hs[i].field_name)] by {
        let i2 = last_index_of_field(hs, i, n);
        assert(last_of_its_field(hs, i2, n));
    }
}

/// The last entry among the first `n` of `hs`, from `i` on, that is not
/// skipped and names the field of the `i`-th.
proof fn last_index_of_field(hs: Seq<HeaderView>, i: int, n: int) -> (r: int)
    requires
        0 <= i < n <= hs.len(),
        !hs[i].skip,
    ensures
        i <= r < n,
        hs[r].field_name == hs[i].field_name,
        last_of_its_field(hs, r, n),
    decreases n - i,
{
    if exists|j: int| i < j < n && !hs[j].skip && #[trigger] hs[j].field_name == hs[i].field_name {
        let j = choose|j: int| i < j < n && !hs[j].skip && #[trigger] hs[j].field_name == hs[i].field_name;
        last_index_of_field(hs, j, n)
    } else {
        i
    }
}

/// A skipped entry takes no column: a registration that keeps to the grid
/// succeeds, each entry that is not skipped (and that no later entry names
/// again) gets column `col` plus the number of entries before it that are
/// not skipped, and a skipped field that no other entry names gets no
/// layout.
pub proof fn law_skip_omits_column(
    m: SheetModel,
    name: Seq<char>,
    hs: Seq<HeaderView>,
    row: u32,
    col: u16,
)
    requires
        layout_fits(hs, row, col),
    ensures
        register(m, name, hs, row, col, hs.len() as int).1 is Ok,
        forall|i: int|
            0 <= i < hs.len() && #[trigger] last_of_its_field(hs, i, hs.len() as int) ==> register(
                m,
                name,
                hs,
                row,
                col,
                hs.len() as int,
            ).0.layout[(name, hs[i].field_name)].col == col + columns_before(hs, i),
        forall|i: int|
            0 <= i < hs.len() && #[trigger] hs[i].skip && !names_field(hs, hs.len() as int, hs[i].field_name)
                && !m.layout.contains_key((name, hs[i].field_name)) ==> !register(
                m,
                name,
                hs,
                row,
                col,
                hs.len() as int,
            ).0.layout.contains_key((name, hs[i].field_name)),
{
    let n = hs.len() as int;
    lemma_register_succeeds(m, name, hs, row, col, n);
    lemma_register_prefix(m, name, hs, row, col, n);
    assert forall|i: int| 0 <= i < hs.len() && #[trigger] last_of_its_field(hs, i, n) implies register(
        m,
        name,
        hs,
        row,
        col,
        n,
    ).0.layout[(name, hs[i].field_name)].col == col + columns_before(hs, i) by {
        assert(!hs[i].skip);
    }
}

/// A registration that keeps to the grid succeeds. With hidden headers no
/// header cell is written and the data of each field starts at `row`;
/// with headers shown, the header text of each entry that is not skipped
/// is written on `row`, in its header style, no cell off `row` is written,
/// and the data starts at `row + 1`.
pub proof fn law_hidden_headers_shift_data_up(
    m: SheetModel,
    name: Seq<char>,
    hs: Seq<HeaderView>,
    row: u32,
    col: u16,
)
    requires
        layout_fits(hs, row, col),
    ensures
        register(m, name, hs, row, col, hs.len() as int).1 is Ok,
        headers_hidden(hs) ==> register(m, name, hs, row, col, hs.len() as int).0.cells == m.cells,
        forall|j: int|
            m.cells.len() <= j < register(m, name, hs, row, col, hs.len() as int).0.cells.len() ==> (
            #[trigger] register(m, name, hs, row, col, hs.len() as int).0.cells[j]).row == row,
        forall|i: int|
            0 <= i < hs.len() && #[trigger] last_of_its_field(hs, i, hs.len() as int) ==> register(
                m,
                name,
                hs,
                row,
                col,
                hs.len() as int,
            ).0.layout[(name, hs[i].field_name)].row == (if headers_hidden(hs) {
                row as int
            } else {
                row + 1
            }),
        !headers_hidden(hs) ==> forall|i: int|
            0 <= i < hs.len() && !(#[trigger] hs[i]).skip ==> header_written(
                m,
                register(m, name, hs, row, col, hs.len() as int).0,
                hs,
                i,
                row,
                col,
            ),
{
    lemma_register_succeeds(m, name, hs, row, col, hs.len() as int);
    lemma_register_prefix(m, name, hs, row, col, hs.len() as int);
    if !headers_hidden(hs) {
        lemma_register_headers(m, name, hs, row, col, hs.len() as int);
    }
}

/// Whether `v` is a record of some struct type.
pub open spec fn is_record(v: Value) -> bool {
    exists|name: Seq<char>| is_flat_record(v, name)
}

/// Whether each of `vs` is a record, of whatever struct type.
pub open spec fn all_records(vs: Seq<Value>) -> bool {
    forall|i: int| 0 <= i < vs.len() ==> is_record(#[trigger] vs[i])
}

proof fn lemma_records_in_turn(m: SheetModel, vs: Seq<Value>, n: int, at: Scope)
    requires
        0 <= n <= vs.len(),
        all_records(vs),
    ensures
        run(m, list_scalars(vs, n, at).0) == serialize_each(m, vs, n),
    decreases n,
{
    if n > 0 {
        lemma_records_in_turn(m, vs, n - 1, at);
        let r = list_scalars(vs, n - 1, at);
        let v = vs[n - 1];
        assert(is_record(v));
        let name = choose|name: Seq<char>| is_flat_record(v, name);
        lemma_record_scalars(v, name, r.1);
        lemma_record_scalars(v, name, outer_scope());
        lemma_run_concat(m, r.0, value_scalars(v, r.1).0);
    }
}

/// Serializing a sequence of records in one call is serializing each
/// record in its own call, in order: element `k` lands where the `k`-th
/// call would have put it.
pub proof fn law_sequence_is_each_in_turn(m: SheetModel, v: Value)
    requires
        v matches Value::Sequence(vs) && all_records(vs@),
    ensures
        serialize_model(m, v) == serialize_each(m, v->Sequence_0@, v->Sequence_0@.len() as int),
{
    let vs = v->Sequence_0@;
    lemma_records_in_turn(m, vs, vs.len() as int, outer_scope());
}

/// Serializing a sequence of records of struct type `name`, each holding
/// the registered field `field`, in one call that keeps to the grid:
/// the call succeeds, element `k` writes the field `k` rows below the
/// cursor it started from, in the field's column, and the cursor ends as
/// many rows down as there are elements.
pub proof fn law_sequence_advances_per_element(m: SheetModel, v: Value, name: Seq<char>, field: Seq<char>)
    requires
        v matches Value::Sequence(vs) && (forall|i: int|
            0 <= i < vs@.len() ==> is_flat_record(#[trigger] vs@[i], name) && has_field(vs@[i], field)),
        m.layout.contains_key((name, field)),
        series_fits(m, v->Sequence_0@),
    ensures
        serialize_model(m, v).1 is Ok,
        serialize_model(m, v).0.layout[(name, field)].row == m.layout[(name, field)].row + v->Sequence_0@.len(),
        serialize_model(m, v).0.layout[(name, field)].col == m.layout[(name, field)].col,
        forall|k: int|
            0 <= k < v->Sequence_0@.len() ==> #[trigger] call_writes_below(
                m,
                v->Sequence_0@,
                k,
                m.layout[(name, field)],
            ),
{
    let vs = v->Sequence_0@;
    assert forall|i: int| 0 <= i < vs.len() implies is_record(#[trigger] vs[i]) by {
        assert(is_flat_record(vs[i], name));
    }
    law_sequence_is_each_in_turn(m, v);
    law_row_advance(m, vs, name, field);
    assert(serialize_each(m, vs, vs.len() as int).0.layout[(name, field)].row == m.layout[(name, field)].row
        + vs.len());
}

/// How many of the first `k` of `records` are of struct type `name` and
/// hold the field `field`.
pub open spec fn count_holding(records: Seq<Value>, k: int, name: Seq<char>, field: Seq<char>) -> int
    decreases k,
{
    if k <= 0 || k > records.len() {
        0
    } else {
        count_holding(records, k - 1, name, field) + (if record_name(records[k - 1]) == name && has_field(
            records[k - 1],
            field,
        ) {
            1int
        } else {
            0int
        })
    }
}

/// Whether each cell written by call `k + 1` of a series lies in a column,
/// as registered in `m`, of a field of the struct type of the record that
/// call serializes.
pub open spec fn call_stays_in_region(m: SheetModel, records: Seq<Value>, k: int) -> bool {
    let before = serialize_each(m, records, k).0.cells;
    let after = serialize_each(m, records, k + 1).0.cells;
    forall|j: int| before.len() <= j < after.len() ==> in_columns_of(m, record_name(records[k]), #[trigger] after[j])
}

/// Whether `w` is in the column, in `m`, of a field registered for the
/// struct type `name`.
pub open spec fn in_columns_of(m: SheetModel, name: Seq<char>, w: CellWrite) -> bool {
    exists|f: Seq<char>| #[trigger] m.layout.contains_key((name, f)) && w.col == m.layout[(name, f)].col
}

/// Calls serializing records of several struct types, interleaved in any
/// order and keeping to the grid: every call succeeds; each call writes
/// only in the columns of fields of its own record's struct type; and the
/// cursor of the field `field` of struct type `name` moves down one row
/// exactly at the calls on records of `name` that hold that field, so that
/// after `k` calls it stands `count_holding(records, k, name, field)` rows
/// below where it started, in the same column.
pub proof fn law_interleaved_regions(m: SheetModel, records: Seq<Value>, name: Seq<char>, field: Seq<char>)
    requires
        all_records(records),
        series_fits(m, records),
        m.layout.contains_key((name, field)),
    ensures
        serialize_each(m, records, records.len() as int).1 is Ok,
        forall|k: int|
            0 <= k <= records.len() ==> #[trigger] serialize_each(m, records, k).0.layout[(name, field)].row
                == m.layout[(name, field)].row + count_holding(records, k, name, field) && serialize_each(
                m,
                records,
                k,
            ).0.layout[(name, field)].col == m.layout[(name, field)].col,
        forall|k: int| 0 <= k < records.len() ==> #[trigger] call_stays_in_region(m, records, k),
{
    lemma_each_bounded(m, records, records.len() as int);
    lemma_interleaved_rows(m, records, name, field, records.len() as int);
    assert forall|k: int| 0 <= k < records.len() implies #[trigger] call_stays_in_region(m, records, k) by {
        lemma_each_bounded(m, records, k);
        let st = serialize_each(m, records, k).0;
        let v = records[k];
        let vn = record_name(v);
        assert(is_record(v));
        lemma_record_name(v);
        lemma_each_bounded(m, records, k + 1);
        assert(serialize_each(m, records, k + 1).0 == serialize_model(st, v).0);
        lemma_call_at_cursors(m, records, k);
        let after = serialize_model(st, v).0;
        assert forall|j: int| st.cells.len() <= j < after.cells.len() implies in_columns_of(
            m,
            vn,
            #[trigger] after.cells[j],
        ) by {
            assert(at_cursor_of(st, vn, after.cells[j]));
            let f = choose|f: Seq<char>|
                #[trigger] st.layout.contains_key((vn, f)) && after.cells[j].row == st.layout[(vn, f)].row
                    && after.cells[j].col == st.layout[(vn, f)].col;
            assert(m.layout.contains_key((vn, f)));
        }
    }
}

proof fn lemma_call_at_cursors(m: SheetModel, records: Seq<Value>, k: int)
    requires
        0 <= k < records.len(),
        all_records(records),
        series_fits(m, records),
    ensures
        forall|j: int|
            serialize_each(m, records, k).0.cells.len() <= j < serialize_model(
                serialize_each(m, records, k).0,
                records[k],
            ).0.cells.len() ==> at_cursor_of(
                serialize_each(m, records, k).0,
                record_name(records[k]),
                #[trigger] serialize_model(serialize_each(m, records, k).0, records[k]).0.cells[j],
            ),
{
    lemma_each_bounded(m, records, k + 1);
    lemma_each_bounded(m, records, k);
    let v = records[k];
    assert(is_record(v));
    lemma_record_name(v);
    let st = serialize_each(m, records, k).0;
    assert(serialize_each(m, records, k + 1).0 == serialize_model(st, v).0);
    assert(serialize_model(st, v).1 is Ok);
    lemma_record_serialized(st, v, record_name(v));
    let ss = record_scalars(record_name(v), record_fields(v));
    let after = serialize_model(st, v).0;
    assert forall|j: int| st.cells.len() <= j < after.cells.len() implies at_cursor_of(
        st,
        record_name(v),
        #[trigger] after.cells[j],
    ) by {
        assert(written_by(st, ss, after.cells[j]));
        let i = choose|i: int|
            0 <= i < ss.len() && st.layout.contains_key(#[trigger] ss[i].0) && after.cells[j] == write_for(
                st.layout[ss[i].0],
                ss[i].1,
            );
        assert(ss[i].0 == (record_name(v), record_fields(v)[i].0@));
        assert(st.layout.contains_key((record_name(v), record_fields(v)[i].0@)));
    }
}

proof fn lemma_interleaved_rows(m: SheetModel, records: Seq<Value>, name: Seq<char>, field: Seq<char>, k: int)
    requires
        0 <= k <= records.len(),
        all_records(records),
        series_fits(m, records),
        m.layout.contains_key((name, field)),
    ensures
        forall|j: int|
            0 <= j <= k ==> #[trigger] serialize_each(m, records, j).0.layout[(name, field)].row
                == m.layout[(name, field)].row + count_holding(records, j, name, field) && serialize_each(
                m,
                records,
                j,
            ).0.layout[(name, field)].col == m.layout[(name, field)].col,
    decreases k,
{
    if k > 0 {
        lemma_interleaved_rows(m, records, name, field, k - 1);
        lemma_each_bounded(m, records, k - 1);
        lemma_each_bounded(m, records, k);
        let st = serialize_each(m, records, k - 1).0;
        let v = records[k - 1];
        assert(is_record(v));
        lemma_record_name(v);
        assert(serialize_each(m, records, k).0 == serialize_model(st, v).0);
        lemma_record_serialized(st, v, record_name(v));
        assert(st.layout.contains_key((name, field)));
        if record_name(v) == name && has_field(v, field) {
            let i = choose|i: int| 0 <= i < record_fields(v).len() && #[trigger] record_fields(v)[i].0@ == field;
            assert(st.layout.contains_key((record_name(v), record_fields(v)[i].0@)));
        }
        assert(serialize_each(m, records, k).0.layout[(name, field)].row == m.layout[(name, field)].row
            + count_holding(records, k, name, field));
    }
}

} // verus!
