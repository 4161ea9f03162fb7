use vstd::prelude::*;

verus! {

/// A value that can be stored in one cell.
#[derive(Debug, PartialEq)]
pub enum CellValue {
    Bool(bool),
    Int(i64),
    UInt(u64),
    /// A floating-point number, carried as its IEEE 754 bit pattern.
    Float(u64),
    Text(String),
}

/// The mathematical content of a [`CellValue`].
pub enum CellData {
    Bool(bool),
    Int(i64),
    UInt(u64),
    Float(u64),
    Text(Seq<char>),
}

impl View for CellValue {
    type V = CellData;

    open spec fn view(&self) -> CellData {
        match self {
            CellValue::Bool(b) => CellData::Bool(*b),
            CellValue::Int(i) => CellData::Int(*i),
            CellValue::UInt(u) => CellData::UInt(*u),
            CellValue::Float(f) => CellData::Float(*f),
            CellValue::Text(s) => CellData::Text(s@),
        }
    }
}

/// One structured value, in the shapes a record can take: scalars,
/// optional values, structs, sequences, tuples, maps and enum variants.
#[derive(Debug, PartialEq)]
pub enum Value {
    Bool(bool),
    Int(i64),
    UInt(u64),
    /// A floating-point number, carried as its IEEE 754 bit pattern.
    Float(u64),
    Char(char),
    Str(String),
    Bytes(Vec<u8>),
    /// An optional value that is absent.
    Absent,
    /// An optional value that is present.
    Present(Box<Value>),
    Unit,
    UnitStruct,
    UnitVariant { variant: String },
    NewtypeStruct(Box<Value>),
    NewtypeVariant { variant: String, value: Box<Value> },
    Sequence(Vec<Value>),
    Tuple(Vec<Value>),
    TupleStruct(Vec<Value>),
    TupleVariant { variant: String, values: Vec<Value> },
    /// The entries of a map, as key and value pairs.
    Entries(Vec<(Value, Value)>),
    /// A named struct with its fields, in declared order.
    Struct { name: String, fields: Vec<(String, Value)> },
    StructVariant { variant: String, fields: Vec<(String, Value)> },
}

/// Where a traversal stands: the struct type being walked and the field
/// within it.
pub type Scope = (Seq<char>, Seq<char>);

/// A scalar met by a traversal, with the scope it was met in.
pub type Scalar = (Scope, CellData);

/// The scope before any struct has been entered.
pub open spec fn outer_scope() -> Scope {
    (Seq::empty(), Seq::empty())
}

/// The text cell that an absent value, a unit or a single character stands for.
pub open spec fn text_scalar(at: Scope, t: Seq<char>) -> Seq<Scalar> {
    seq![(at, CellData::Text(t))]
}

/// The scalars that a traversal of `v` meets, in order, when it starts in
/// scope `at`, and the scope it leaves behind.
///
/// Bytes and the unit, newtype and struct variants of enums are dropped;
/// an absent value, a unit and a unit struct stand for empty text; a
/// character stands for a text of one character; a tuple variant's name is
/// met as a text before its members; the keys and values of a map are met
/// in the scope they stand in; a struct sets the struct name of the scope
/// and each of its fields sets the field name.
pub open spec fn value_scalars(v: Value, at: Scope) -> (Seq<Scalar>, Scope)
    decreases v, 0nat,
{
    match v {
        Value::Bool(b) => (seq![(at, CellData::Bool(b))], at),
        Value::Int(i) => (seq![(at, CellData::Int(i))], at),
        Value::UInt(u) => (seq![(at, CellData::UInt(u))], at),
        Value::Float(f) => (seq![(at, CellData::Float(f))], at),
        Value::Char(c) => (text_scalar(at, seq![c]), at),
        Value::Str(s) => (text_scalar(at, s@), at),
        Value::Bytes(_) => (Seq::empty(), at),
        Value::Absent => (text_scalar(at, Seq::empty()), at),
        Value::Present(inner) => value_scalars(*inner, at),
        Value::Unit => (text_scalar(at, Seq::empty()), at),
        Value::UnitStruct => (text_scalar(at, Seq::empty()), at),
        Value::UnitVariant { .. } => (Seq::empty(), at),
        Value::NewtypeStruct(inner) => value_scalars(*inner, at),
        Value::NewtypeVariant { .. } => (Seq::empty(), at),
        Value::Sequence(vs) => list_scalars(vs@, vs@.len() as int, at),
        Value::Tuple(vs) => list_scalars(vs@, vs@.len() as int, at),
        Value::TupleStruct(vs) => list_scalars(vs@, vs@.len() as int, at),
        Value::TupleVariant { variant, values } => {
            let r = list_scalars(values@, values@.len() as int, at);
            (text_scalar(at, variant@) + r.0, r.1)
        },
        Value::Entries(es) => entry_scalars(es@, es@.len() as int, at),
        Value::Struct { name, fields } => field_scalars(fields@, fields@.len() as int, (name@, at.1)),
        Value::StructVariant { .. } => (Seq::empty(), at),
    }
}

/// The scalars met in the first `n` of the values `vs`, walked in order.
pub open spec fn list_scalars(vs: Seq<Value>, n: int, at: Scope) -> (Seq<Scalar>, Scope)
    decreases vs, n,
{
    if n <= 0 || n > vs.len() {
        (Seq::empty(), at)
    } else {
        let r = list_scalars(vs, n - 1, at);
        let s = value_scalars(vs[n - 1], r.1);
        (r.0 + s.0, s.1)
    }
}

/// The scalars met in the first `n` map entries `es`, each key before its value.
pub open spec fn entry_scalars(es: Seq<(Value, Value)>, n: int, at: Scope) -> (Seq<Scalar>, Scope)
    decreases es, n,
{
    if n <= 0 || n > es.len() {
        (Seq::empty(), at)
    } else {
        let r = entry_scalars(es, n - 1, at);
        let k = value_scalars(es[n - 1].0, r.1);
        let v = value_scalars(es[n - 1].1, k.1);
        (r.0 + k.0 + v.0, v.1)
    }
}

/// The scalars met in the first `n` struct fields `fs`; each field sets the
/// field name of the scope before its value is walked.
pub open spec fn field_scalars(fs: Seq<(String, Value)>, n: int, at: Scope) -> (Seq<Scalar>, Scope)
    decreases fs, n,
{
    if n <= 0 || n > fs.len() {
        (Seq::empty(), at)
    } else {
        let r = field_scalars(fs, n - 1, at);
        let s = value_scalars(fs[n - 1].1, (r.1.0, fs[n - 1].0@));
        (r.0 + s.0, s.1)
    }
}

/// The scalars of a shorter run of values come first among those of a longer one.
pub proof fn lemma_list_prefix(vs: Seq<Value>, j: int, n: int, at: Scope)
    requires
        0 <= j <= n <= vs.len(),
    ensures
        list_scalars(vs, j, at).0.is_prefix_of(list_scalars(vs, n, at).0),
    decreases n - j,
{
    if j < n {
        lemma_list_prefix(vs, j, n - 1, at);
        let a = list_scalars(vs, j, at).0;
        let b = list_scalars(vs, n - 1, at).0;
        let c = list_scalars(vs, n, at).0;
        assert(c.subrange(0, b.len() as int) =~= b);
        assert(c.subrange(0, a.len() as int) =~= b.subrange(0, a.len() as int));
    }
}

/// The scalars of fewer map entries come first among those of more.
pub proof fn lemma_entry_prefix(es: Seq<(Value, Value)>, j: int, n: int, at: Scope)
    requires
        0 <= j <= n <= es.len(),
    ensures
        entry_scalars(es, j, at).0.is_prefix_of(entry_scalars(es, n, at).0),
    decreases n - j,
{
    if j < n {
        lemma_entry_prefix(es, j, n - 1, at);
        let a = entry_scalars(es, j, at).0;
        let b = entry_scalars(es, n - 1, at).0;
        let c = entry_scalars(es, n, at).0;
        assert(c.subrange(0, b.len() as int) =~= b);
        assert(c.subrange(0, a.len() as int) =~= b.subrange(0, a.len() as int));
    }
}

/// The scalars of fewer struct fields come first among those of more.
pub proof fn lemma_field_prefix(fs: Seq<(String, Value)>, j: int, n: int, at: Scope)
    requires
        0 <= j <= n <= fs.len(),
    ensures
        field_scalars(fs, j, at).0.is_prefix_of(field_scalars(fs, n, at).0),
    decreases n - j,
{
    if j < n {
        lemma_field_prefix(fs, j, n - 1, at);
        let a = field_scalars(fs, j, at).0;
        let b = field_scalars(fs, n - 1, at).0;
        let c = field_scalars(fs, n, at).0;
        assert(c.subrange(0, b.len() as int) =~= b);
        assert(c.subrange(0, a.len() as int) =~= b.subrange(0, a.len() as int));
    }
}

} // verus!
