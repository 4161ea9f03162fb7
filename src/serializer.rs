use vstd::prelude::*;
use crate::error::XlsxError;
use crate::format::Format;
use crate::grid::{
    Cell, CellWrite, SheetModel, step, run, register, write_error, writes_to, in_grid, headers_hidden,
    columns_before, lemma_register_stops, lemma_run_concat, lemma_run_one, lemma_run_stops, COL_MAX,
    ROW_MAX, MAX_STRING_LEN,
};
use crate::header::{CustomSerializeHeader, HeaderView, default_header};
use crate::value::{
    CellData, CellValue, Scope, Value, value_scalars, list_scalars, entry_scalars, field_scalars,
    text_scalar, outer_scope, lemma_list_prefix, lemma_entry_prefix, lemma_field_prefix,
};
use vstd::string::StrSliceExecFns;

verus! {

/// A registered layout: the struct name it belongs to and the field's layout.
pub type Registration = (String, CustomSerializeHeader);

/// The key a registration is found under: struct name and field name.
pub open spec fn registration_key(e: Registration) -> Scope {
    (e.0@, e.1@.field_name)
}

/// The layouts held by the registrations `es`.
pub open spec fn layout_of(es: Seq<Registration>) -> Map<Scope, HeaderView>
    decreases es.len(),
{
    if es.len() == 0 {
        Map::empty()
    } else {
        layout_of(es.drop_last()).insert(registration_key(es.last()), es.last().1@)
    }
}

/// No two registrations share a key.
pub open spec fn keys_unique(es: Seq<Registration>) -> bool {
    forall|i: int, j: int|
        0 <= i < j < es.len() ==> registration_key(es[i]) != registration_key(es[j])
}

proof fn lemma_layout_index(es: Seq<Registration>, i: int)
    requires
        keys_unique(es),
        0 <= i < es.len(),
    ensures
        layout_of(es).contains_key(registration_key(es[i])),
        layout_of(es)[registration_key(es[i])] == es[i].1@,
    decreases es.len(),
{
    if i < es.len() - 1 {
        lemma_layout_index(es.drop_last(), i);
        assert(registration_key(es[i]) != registration_key(es.last()));
    }
}

proof fn lemma_layout_absent(es: Seq<Registration>, k: Scope)
    requires
        forall|i: int| 0 <= i < es.len() ==> registration_key(#[trigger] es[i]) != k,
    ensures
        !layout_of(es).contains_key(k),
    decreases es.len(),
{
    if es.len() > 0 {
        lemma_layout_absent(es.drop_last(), k);
    }
}

proof fn lemma_layout_update(es: Seq<Registration>, i: int, e: Registration)
    requires
        keys_unique(es),
        0 <= i < es.len(),
        registration_key(e) == registration_key(es[i]),
    ensures
        layout_of(es.update(i, e)) == layout_of(es).insert(registration_key(e), e.1@),
    decreases es.len(),
{
    let u = es.update(i, e);
    if i == es.len() - 1 {
        assert(u.drop_last() =~= es.drop_last());
        assert(layout_of(u) =~= layout_of(es).insert(registration_key(e), e.1@));
    } else {
        assert(u.drop_last() =~= es.drop_last().update(i, e));
        lemma_layout_update(es.drop_last(), i, e);
        assert(registration_key(es[i]) != registration_key(es.last()));
        assert(layout_of(u) =~= layout_of(es).insert(registration_key(e), e.1@));
    }
}

proof fn lemma_layout_push(es: Seq<Registration>, e: Registration)
    requires
        keys_unique(es),
        forall|i: int| 0 <= i < es.len() ==> registration_key(#[trigger] es[i]) != registration_key(e),
    ensures
        keys_unique(es.push(e)),
        layout_of(es.push(e)) == layout_of(es).insert(registration_key(e), e.1@),
{
    assert(es.push(e).drop_last() =~= es);
}

/// The layouts registered on a worksheet and the state of a traversal in
/// progress: the struct and field being walked and the cell resolved for it.
pub struct SerializerState {
    headers: Vec<Registration>,
    current_struct: String,
    current_field: String,
    current_col: u16,
    current_row: u32,
    cell_format: Option<Format>,
    current_index: usize,
}

impl SerializerState {
    /// The layouts registered so far.
    pub closed spec fn layout(&self) -> Map<Scope, HeaderView> {
        layout_of(self.headers@)
    }

    /// The struct and field the traversal stands in.
    pub closed spec fn scope(&self) -> Scope {
        (self.current_struct@, self.current_field@)
    }

    /// No two registrations share a key.
    pub closed spec fn wf(&self) -> bool {
        keys_unique(self.headers@)
    }

    /// The cell resolved for the field the traversal stands in, and its
    /// cell style: row, column and style.
    pub closed spec fn active_cell(&self) -> (u32, u16, Option<Format>) {
        (self.current_row, self.current_col, self.cell_format)
    }

    /// A state with no layout and no traversal in progress.
    pub fn new() -> (r: SerializerState)
        ensures
            r.wf(),
            r.layout() == Map::<Scope, HeaderView>::empty(),
            r.scope() == (Seq::<char>::empty(), Seq::<char>::empty()),
            r.active_cell() == (0u32, 0u16, None::<Format>),
    {
        SerializerState {
            headers: Vec::new(),
            current_struct: String::new(),
            current_field: String::new(),
            current_col: 0,
            current_row: 0,
            cell_format: None,
            current_index: 0,
        }
    }

    /// The position of the registration under `(struct_name, field_name)`.
    fn find(&self, struct_name: &String, field_name: &String) -> (r: Option<usize>)
        requires
            self.wf(),
        ensures
            r is None <==> !self.layout().contains_key((struct_name@, field_name@)),
            r matches Some(i) ==> i < self.headers@.len() && registration_key(self.headers@[i as int])
                == (struct_name@, field_name@),
    {
        let mut i: usize = 0;
        while i < self.headers.len()
            invariant
                self.wf(),
                i <= self.headers@.len(),
                forall|j: int|
                    0 <= j < i ==> registration_key(#[trigger] self.headers@[j]) != (
                        struct_name@,
                        field_name@,
                    ),
            decreases self.headers@.len() - i,
        {
            let e = &self.headers[i];
            if e.0 == *struct_name && *e.1.field_name() == *field_name {
                proof {
                    lemma_layout_index(self.headers@, i as int);
                }
                return Some(i);
            }
            i = i + 1;
        }
        proof {
            lemma_layout_absent(self.headers@, (struct_name@, field_name@));
        }
        None
    }

    /// Registers `header` for struct `struct_name`, in place of any layout
    /// registered under the same struct and field names.
    fn insert(&mut self, struct_name: &String, header: CustomSerializeHeader)
        requires
            old(self).wf(),
        ensures
            final(self).wf(),
            final(self).scope() == old(self).scope(),
            final(self).layout() == old(self).layout().insert((struct_name@, header@.field_name), header@),
    {
        let ghost es = self.headers@;
        let e = (struct_name.clone(), header);
        match self.find(struct_name, e.1.field_name()) {
            Some(i) => {
                proof {
                    lemma_layout_update(es, i as int, e);
                }
                self.headers.set(i, e);
                proof {
                    assert forall|a: int, b: int|
                        0 <= a < b < self.headers@.len() implies registration_key(self.headers@[a])
                        != registration_key(self.headers@[b]) by {
                        assert(registration_key(self.headers@[a]) == registration_key(es[a]));
                        assert(registration_key(self.headers@[b]) == registration_key(es[b]));
                    }
                }
            },
            None => {
                proof {
                    if exists|i: int| 0 <= i < es.len() && registration_key(#[trigger] es[i]) == registration_key(e) {
                        let i = choose|i: int| 0 <= i < es.len() && registration_key(#[trigger] es[i]) == registration_key(e);
                        lemma_layout_index(es, i);
                    }
                    lemma_layout_push(es, e);
                }
                self.headers.push(e);
            },
        }
    }

    /// Resolves the field the traversal stands in: when it is registered,
    /// its cursor's cell and its cell style become the active ones.
    fn is_known_field(&mut self) -> (r: bool)
        requires
            old(self).wf(),
        ensures
            final(self).wf(),
            final(self).layout() == old(self).layout(),
            final(self).scope() == old(self).scope(),
            r == old(self).layout().contains_key(old(self).scope()),
            !r ==> *final(self) == *old(self),
            r ==> final(self).active_index_ok() && final(self).current_row == old(self).layout()[old(
                self,
            ).scope()].row && final(self).current_col == old(self).layout()[old(self).scope()].col
                && final(self).cell_format == old(self).layout()[old(self).scope()].cell_format,
    {
        match self.find(&self.current_struct, &self.current_field) {
            None => false,
            Some(i) => {
                proof {
                    lemma_layout_index(self.headers@, i as int);
                }
                let h = &self.headers[i].1;
                self.current_row = h.row();
                self.current_col = h.col();
                self.cell_format = h.cell_format();
                self.current_index = i;
                true
            },
        }
    }

    /// The active registration is the one of the field the traversal stands in.
    closed spec fn active_index_ok(&self) -> bool {
        &&& self.current_index < self.headers@.len()
        &&& registration_key(self.headers@[self.current_index as int]) == self.scope()
    }

    /// Moves the cursor of the active field one row down.
    fn advance_active_row(&mut self)
        requires
            old(self).wf(),
            old(self).active_index_ok(),
            old(self).headers@[old(self).current_index as int].1@.row < u32::MAX,
        ensures
            final(self).wf(),
            final(self).scope() == old(self).scope(),
            final(self).layout() == old(self).layout().insert(
                old(self).scope(),
                HeaderView {
                    row: (old(self).layout()[old(self).scope()].row + 1) as u32,
                    ..old(self).layout()[old(self).scope()]
                },
            ),
    {
        let i = self.current_index;
        proof {
            lemma_layout_index(self.headers@, i as int);
        }
        let ghost es = self.headers@;
        self.headers[i].1.advance_row();
        proof {
            lemma_layout_update(es, i as int, self.headers@[i as int]);
            assert(self.headers@ =~= es.update(i as int, self.headers@[i as int]));
        }
    }
}

/// Relies on `ToString::to_string` for `char`: the text of that one character.
#[verifier::external_body]
fn char_text(c: char) -> (r: String)
    ensures
        r@ == seq![c],
{
    c.to_string()
}

/// A worksheet: the cells written to it and the layouts registered on it.
pub struct Worksheet {
    cells: Vec<Cell>,
    serializer_state: SerializerState,
}

impl Worksheet {
    /// The layouts registered on the worksheet and the cells written to it.
    pub closed spec fn model(&self) -> SheetModel {
        SheetModel {
            layout: self.serializer_state.layout(),
            cells: self.cells@.map_values(|c: Cell| c@),
        }
    }

    /// The struct and field a traversal stands in.
    pub closed spec fn scope(&self) -> Scope {
        self.serializer_state.scope()
    }

    /// The worksheet's invariant.
    pub closed spec fn wf(&self) -> bool {
        self.serializer_state.wf()
    }

    /// An empty worksheet with no layout.
    pub fn new() -> (r: Worksheet)
        ensures
            r.wf(),
            r.model() == (SheetModel { layout: Map::empty(), cells: Seq::empty() }),
    {
        let r = Worksheet { cells: Vec::new(), serializer_state: SerializerState::new() };
        assert(r.model().cells =~= Seq::empty());
        r
    }

    /// Writes `value` unstyled to the cell `(row, col)`; fails when the
    /// cell is off the grid or a text is too long for a cell.
    pub fn write(&mut self, row: u32, col: u16, value: CellValue) -> (r: Result<(), XlsxError>)
        requires
            old(self).wf(),
        ensures
            final(self).wf(),
            final(self).scope() == old(self).scope(),
            final(self).model().layout == old(self).model().layout,
            match write_error(row as int, col as int, value@) {
                Some(e) => r == Err::<(), XlsxError>(e) && final(self).model() == old(self).model(),
                None => r is Ok && final(self).model().cells == old(self).model().cells.push(
                    CellWrite { row, col, data: value@, format: None },
                ),
            },
    {
        self.store_cell(row, col, value, None)
    }

    /// Writes `value` with style `format` to the cell `(row, col)`; fails
    /// when the cell is off the grid or a text is too long for a cell.
    pub fn write_with_format(&mut self, row: u32, col: u16, value: CellValue, format: &Format) -> (r:
        Result<(), XlsxError>)
        requires
            old(self).wf(),
        ensures
            final(self).wf(),
            final(self).scope() == old(self).scope(),
            final(self).model().layout == old(self).model().layout,
            match write_error(row as int, col as int, value@) {
                Some(e) => r == Err::<(), XlsxError>(e) && final(self).model() == old(self).model(),
                None => r is Ok && final(self).model().cells == old(self).model().cells.push(
                    CellWrite { row, col, data: value@, format: Some(*format) },
                ),
            },
    {
        self.store_cell(row, col, value, Some(*format))
    }

    /// Writes `value` with style `format`, if any, to the cell `(row, col)`.
    fn store_cell(&mut self, row: u32, col: u16, value: CellValue, format: Option<Format>) -> (r:
        Result<(), XlsxError>)
        requires
            old(self).wf(),
        ensures
            final(self).wf(),
            final(self).scope() == old(self).scope(),
            final(self).model().layout == old(self).model().layout,
            final(self).serializer_state == old(self).serializer_state,
            match write_error(row as int, col as int, value@) {
                Some(e) => r == Err::<(), XlsxError>(e) && final(self).model() == old(self).model(),
                None => r is Ok && final(self).model().cells == old(self).model().cells.push(
                    CellWrite { row, col, data: value@, format },
                ),
            },
    {
        if row >= ROW_MAX || col >= COL_MAX {
            return Err(XlsxError::RowColumnLimitError);
        }
        if let CellValue::Text(t) = &value {
            if t.as_str().unicode_len() > MAX_STRING_LEN {
                return Err(XlsxError::MaxStringLengthExceeded);
            }
        }
        let ghost old_cells = self.cells@;
        self.cells.push(Cell { row, col, value, format });
        assert(self.cells@.map_values(|c: Cell| c@) =~= old_cells.map_values(|c: Cell| c@).push(
            CellWrite { row, col, data: value@, format },
        ));
        Ok(())
    }

    /// The layout registered for the field `field_name` of the struct type
    /// `struct_name`, if any, with its cursor where the next write goes.
    pub fn layout_entry(&self, struct_name: &str, field_name: &str) -> (r: Option<&CustomSerializeHeader>)
        requires
            self.wf(),
        ensures
            r is None <==> !self.model().layout.contains_key((struct_name@, field_name@)),
            r matches Some(h) ==> h@ == self.model().layout[(struct_name@, field_name@)],
    {
        let s = struct_name.to_owned();
        let f = field_name.to_owned();
        match self.serializer_state.find(&s, &f) {
            None => None,
            Some(i) => {
                proof {
                    lemma_layout_index(self.serializer_state.headers@, i as int);
                }
                Some(&self.serializer_state.headers[i].1)
            },
        }
    }

    /// The cell last written at `(row, col)`, if any.
    pub fn read_cell(&self, row: u32, col: u16) -> (r: Option<&Cell>)
        ensures
            r is None <==> (forall|i: int|
                0 <= i < self.model().cells.len() ==> !writes_to(#[trigger] self.model().cells[i], row, col)),
            r matches Some(c) ==> exists|i: int|
                0 <= i < self.model().cells.len() && #[trigger] self.model().cells[i] == c@
                    && writes_to(c@, row, col) && forall|j: int|
                    i < j < self.model().cells.len() ==> !writes_to(#[trigger] self.model().cells[j], row, col),
    {
        let mut i: usize = self.cells.len();
        while i > 0
            invariant
                i <= self.cells@.len(),
                forall|j: int|
                    i <= j < self.cells@.len() ==> !writes_to(#[trigger] self.cells@[j]@, row, col),
            decreases i,
        {
            let c = &self.cells[i - 1];
            if c.row == row && c.col == col {
                assert(self.model().cells[i - 1] == c@);
                assert(writes_to(self.model().cells[i - 1], row, col));
                return Some(c);
            }
            i = i - 1;
        }
        None
    }

    /// The scalar rule: when the field the traversal stands in is
    /// registered, `data` is written to its cursor's cell with its cell
    /// style and the cursor moves one row down; otherwise it is dropped.
    fn serialize_to_worksheet_cell(&mut self, data: CellValue) -> (r: Result<(), XlsxError>)
        requires
            old(self).wf(),
        ensures
            final(self).wf(),
            final(self).scope() == old(self).scope(),
            (final(self).model(), r) == step(old(self).model(), (old(self).scope(), data@)),
    {
        let ghost m0 = self.model();
        if !self.serializer_state.is_known_field() {
            return Ok(());
        }
        let row = self.serializer_state.current_row;
        let col = self.serializer_state.current_col;
        let format = self.serializer_state.cell_format;
        proof {
            lemma_layout_index(
                self.serializer_state.headers@,
                self.serializer_state.current_index as int,
            );
        }
        match self.store_cell(row, col, data, format) {
            Err(e) => {
                return Err(e);
            },
            Ok(()) => {},
        }
        self.serializer_state.advance_active_row();
        Ok(())
    }

    /// A text scalar.
    fn serialize_str(&mut self, data: &String) -> (r: Result<(), XlsxError>)
        requires
            old(self).wf(),
        ensures
            final(self).wf(),
            final(self).scope() == old(self).scope(),
            (final(self).model(), r) == run(old(self).model(), text_scalar(old(self).scope(), data@)),
    {
        let r = self.serialize_to_worksheet_cell(CellValue::Text(data.clone()));
        proof {
            lemma_run_one(old(self).model(), (old(self).scope(), CellData::Text(data@)));
        }
        r
    }

    /// A character, as a text of that one character.
    fn serialize_char(&mut self, data: char) -> (r: Result<(), XlsxError>)
        requires
            old(self).wf(),
        ensures
            final(self).wf(),
            final(self).scope() == old(self).scope(),
            (final(self).model(), r) == run(old(self).model(), text_scalar(old(self).scope(), seq![data])),
    {
        self.serialize_str(&char_text(data))
    }

    /// An absent value, a unit or a unit struct, as an empty text: a
    /// registered field's cursor still moves down.
    fn serialize_none(&mut self) -> (r: Result<(), XlsxError>)
        requires
            old(self).wf(),
        ensures
            final(self).wf(),
            final(self).scope() == old(self).scope(),
            (final(self).model(), r) == run(old(self).model(), text_scalar(old(self).scope(), Seq::empty())),
    {
        self.serialize_str(&String::new())
    }

    /// The values `vs` in order: the elements of a sequence or the members
    /// of a tuple.
    fn serialize_elements(&mut self, vs: &Vec<Value>) -> (r: Result<(), XlsxError>)
        requires
            old(self).wf(),
        ensures
            final(self).wf(),
            (final(self).model(), r) == run(
                old(self).model(),
                list_scalars(vs@, vs@.len() as int, old(self).scope()).0,
            ),
            r is Ok ==> final(self).scope() == list_scalars(vs@, vs@.len() as int, old(self).scope()).1,
        decreases vs, 0nat,
    {
        let ghost m0 = self.model();
        let ghost at0 = self.scope();
        let mut i: usize = 0;
        while i < vs.len()
            invariant
                self.wf(),
                m0 == old(self).model(),
                at0 == old(self).scope(),
                i <= vs@.len(),
                run(m0, list_scalars(vs@, i as int, at0).0) == (self.model(), Ok::<(), XlsxError>(())),
                self.scope() == list_scalars(vs@, i as int, at0).1,
            decreases vs@.len() - i,
        {
            let ghost before = list_scalars(vs@, i as int, at0);
            let ghost inner = value_scalars(vs@[i as int], before.1);
            let r = self.serialize_value(&vs[i]);
            proof {
                lemma_run_concat(m0, before.0, inner.0);
            }
            proof {
                assert(list_scalars(vs@, i + 1, at0).0 == before.0 + inner.0);
                assert(run(m0, before.0 + inner.0) == (self.model(), r));
            }
            if r.is_err() {
                proof {
                    lemma_list_prefix(vs@, i + 1, vs@.len() as int, at0);
                    lemma_run_stops(m0, list_scalars(vs@, i + 1, at0).0, list_scalars(vs@, vs@.len() as int, at0).0);
                }
                return r;
            }
            i = i + 1;
        }
        Ok(())
    }

    /// The entries `es` of a map in order, each key before its value.
    fn serialize_entries(&mut self, es: &Vec<(Value, Value)>) -> (r: Result<(), XlsxError>)
        requires
            old(self).wf(),
        ensures
            final(self).wf(),
            (final(self).model(), r) == run(
                old(self).model(),
                entry_scalars(es@, es@.len() as int, old(self).scope()).0,
            ),
            r is Ok ==> final(self).scope() == entry_scalars(es@, es@.len() as int, old(self).scope()).1,
        decreases es, 0nat,
    {
        let ghost m0 = self.model();
        let ghost at0 = self.scope();
        let mut i: usize = 0;
        while i < es.len()
            invariant
                self.wf(),
                m0 == old(self).model(),
                at0 == old(self).scope(),
                i <= es@.len(),
                run(m0, entry_scalars(es@, i as int, at0).0) == (self.model(), Ok::<(), XlsxError>(())),
                self.scope() == entry_scalars(es@, i as int, at0).1,
            decreases es@.len() - i,
        {
            let ghost before = entry_scalars(es@, i as int, at0);
            let ghost k = value_scalars(es@[i as int].0, before.1);
            let ghost v = value_scalars(es@[i as int].1, k.1);
            proof {
                lemma_entry_prefix(es@, i + 1, es@.len() as int, at0);
                assert(entry_scalars(es@, i + 1, at0).0 == before.0 + k.0 + v.0);
            }
            let r = self.serialize_value(&es[i].0);
            proof {
                lemma_run_concat(m0, before.0, k.0);
            }
            if r.is_err() {
                proof {
                    assert((before.0 + k.0).is_prefix_of(before.0 + k.0 + v.0));
                    lemma_run_stops(m0, before.0 + k.0, entry_scalars(es@, es@.len() as int, at0).0);
                }
                return r;
            }
            let r = self.serialize_value(&es[i].1);
            proof {
                lemma_run_concat(m0, before.0 + k.0, v.0);
            }
            if r.is_err() {
                proof {
                    lemma_run_stops(m0, entry_scalars(es@, i + 1, at0).0, entry_scalars(es@, es@.len() as int, at0).0);
                }
                return r;
            }
            i = i + 1;
        }
        Ok(())
    }

    /// The fields `fs` of a struct in order; each sets the field the
    /// traversal stands in before its value is walked.
    fn serialize_fields(&mut self, fs: &Vec<(String, Value)>) -> (r: Result<(), XlsxError>)
        requires
            old(self).wf(),
        ensures
            final(self).wf(),
            (final(self).model(), r) == run(
                old(self).model(),
                field_scalars(fs@, fs@.len() as int, old(self).scope()).0,
            ),
            r is Ok ==> final(self).scope() == field_scalars(fs@, fs@.len() as int, old(self).scope()).1,
        decreases fs, 0nat,
    {
        let ghost m0 = self.model();
        let ghost at0 = self.scope();
        let mut i: usize = 0;
        while i < fs.len()
            invariant
                self.wf(),
                m0 == old(self).model(),
                at0 == old(self).scope(),
                i <= fs@.len(),
                run(m0, field_scalars(fs@, i as int, at0).0) == (self.model(), Ok::<(), XlsxError>(())),
                self.scope() == field_scalars(fs@, i as int, at0).1,
            decreases fs@.len() - i,
        {
            let ghost before = field_scalars(fs@, i as int, at0);
            self.serializer_state.current_field = fs[i].0.clone();
            let ghost inner = value_scalars(fs@[i as int].1, self.scope());
            let r = self.serialize_value(&fs[i].1);
            proof {
                lemma_run_concat(m0, before.0, inner.0);
            }
            if r.is_err() {
                proof {
                    lemma_field_prefix(fs@, i + 1, fs@.len() as int, at0);
                    lemma_run_stops(m0, field_scalars(fs@, i + 1, at0).0, field_scalars(fs@, fs@.len() as int, at0).0);
                }
                return r;
            }
            i = i + 1;
        }
        Ok(())
    }

    /// A struct named `name`: it becomes the struct the traversal stands
    /// in, and its fields are walked in order.
    fn serialize_struct(&mut self, name: &String, fs: &Vec<(String, Value)>) -> (r: Result<(), XlsxError>)
        requires
            old(self).wf(),
        ensures
            final(self).wf(),
            (final(self).model(), r) == run(
                old(self).model(),
                field_scalars(fs@, fs@.len() as int, (name@, old(self).scope().1)).0,
            ),
            r is Ok ==> final(self).scope() == field_scalars(fs@, fs@.len() as int, (name@, old(self).scope().1)).1,
        decreases fs, 1nat,
    {
        self.serializer_state.current_struct = name.clone();
        self.serialize_fields(fs)
    }

    /// A tuple variant: its variant name as a text, then its members.
    fn serialize_tuple_variant(&mut self, variant: &String, vs: &Vec<Value>) -> (r: Result<(), XlsxError>)
        requires
            old(self).wf(),
        ensures
            final(self).wf(),
            (final(self).model(), r) == run(
                old(self).model(),
                text_scalar(old(self).scope(), variant@) + list_scalars(vs@, vs@.len() as int, old(self).scope()).0,
            ),
            r is Ok ==> final(self).scope() == list_scalars(vs@, vs@.len() as int, old(self).scope()).1,
        decreases vs, 1nat,
    {
        let ghost m0 = self.model();
        let ghost head = text_scalar(self.scope(), variant@);
        let ghost rest = list_scalars(vs@, vs@.len() as int, self.scope()).0;
        let r = self.serialize_str(variant);
        proof {
            lemma_run_concat(m0, head, rest);
        }
        if r.is_err() {
            return r;
        }
        self.serialize_elements(vs)
    }

    /// Walks `v`, writing each scalar met under a registered field.
    fn serialize_value(&mut self, v: &Value) -> (r: Result<(), XlsxError>)
        requires
            old(self).wf(),
        ensures
            final(self).wf(),
            (final(self).model(), r) == run(old(self).model(), value_scalars(*v, old(self).scope()).0),
            r is Ok ==> final(self).scope() == value_scalars(*v, old(self).scope()).1,
        decreases v, 0nat,
    {
        match v {
            Value::Bool(b) => self.serialize_scalar(CellValue::Bool(*b)),
            Value::Int(i) => self.serialize_scalar(CellValue::Int(*i)),
            Value::UInt(u) => self.serialize_scalar(CellValue::UInt(*u)),
            Value::Float(f) => self.serialize_scalar(CellValue::Float(*f)),
            Value::Char(c) => self.serialize_char(*c),
            Value::Str(s) => self.serialize_str(s),
            Value::Bytes(_) => Ok(()),
            Value::Absent => self.serialize_none(),
            Value::Present(inner) => self.serialize_value(inner),
            Value::Unit => self.serialize_none(),
            Value::UnitStruct => self.serialize_none(),
            Value::UnitVariant { .. } => Ok(()),
            Value::NewtypeStruct(inner) => self.serialize_value(inner),
            Value::NewtypeVariant { .. } => Ok(()),
            Value::Sequence(vs) => self.serialize_elements(vs),
            Value::Tuple(vs) => self.serialize_elements(vs),
            Value::TupleStruct(vs) => self.serialize_elements(vs),
            Value::TupleVariant { variant, values } => self.serialize_tuple_variant(variant, values),
            Value::Entries(es) => self.serialize_entries(es),
            Value::Struct { name, fields } => self.serialize_struct(name, fields),
            Value::StructVariant { .. } => Ok(()),
        }
    }

    /// A scalar other than a text.
    fn serialize_scalar(&mut self, data: CellValue) -> (r: Result<(), XlsxError>)
        requires
            old(self).wf(),
        ensures
            final(self).wf(),
            final(self).scope() == old(self).scope(),
            (final(self).model(), r) == run(old(self).model(), seq![(old(self).scope(), data@)]),
    {
        let r = self.serialize_to_worksheet_cell(data);
        proof {
            lemma_run_one(old(self).model(), (old(self).scope(), data@));
        }
        r
    }

    /// Registers the layouts `custom_headers` for the struct type
    /// `struct_name` with the header row at `(row, col)`.
    ///
    /// Fails when `(row, col)` is off the grid or `struct_name` is blank,
    /// and changes nothing then. Otherwise each layout that is not skipped
    /// takes the next column from `col` on; unless one of the layouts hides
    /// headers, its header text is written at `row` with its header style
    /// and its data starts one row below, else its data starts at `row`. A
    /// layout replaces the one registered before under the same struct and
    /// field names. Registration stops with an error at the first layout
    /// whose column lies past the grid's last column, or whose header text
    /// is too long for a cell; the layouts and headers before it stay.
    pub fn serialize_headers_with_options(
        &mut self,
        row: u32,
        col: u16,
        struct_name: &str,
        custom_headers: &[CustomSerializeHeader],
    ) -> (r: Result<(), XlsxError>)
        requires
            old(self).wf(),
        ensures
            final(self).wf(),
            !in_grid(row as int, col as int) ==> r == Err::<(), XlsxError>(XlsxError::RowColumnLimitError)
                && final(self).model() == old(self).model(),
            in_grid(row as int, col as int) && struct_name@.len() == 0 ==> (r matches Err(
                XlsxError::ParameterError(_),
            )) && final(self).model() == old(self).model(),
            in_grid(row as int, col as int) && struct_name@.len() > 0 ==> (final(self).model(), r)
                == register(
                old(self).model(),
                struct_name@,
                header_views(custom_headers@),
                row,
                col,
                custom_headers@.len() as int,
            ),
    {
        if row >= ROW_MAX || col >= COL_MAX {
            return Err(XlsxError::RowColumnLimitError);
        }
        if struct_name.is_empty() {
            return Err(XlsxError::ParameterError("struct_name parameter cannot be blank".to_owned()));
        }
        let ghost m0 = self.model();
        let ghost hv = header_views(custom_headers@);
        let name = struct_name.to_owned();
        let mut hidden_headers = false;
        let mut k: usize = 0;
        while k < custom_headers.len()
            invariant
                k <= custom_headers@.len(),
                hv == header_views(custom_headers@),
                hidden_headers <==> exists|j: int| 0 <= j < k && #[trigger] hv[j].hide_headers,
            decreases custom_headers@.len() - k,
        {
            assert(hv[k as int] == custom_headers@[k as int]@);
            if custom_headers[k].hides_headers() {
                hidden_headers = true;
            }
            k = k + 1;
        }
        assert(hidden_headers == headers_hidden(hv));
        let mut next_col: u32 = col as u32;
        let mut i: usize = 0;
        while i < custom_headers.len()
            invariant
                self.wf(),
                m0 == old(self).model(),
                hv == header_views(custom_headers@),
                name@ == struct_name@,
                hidden_headers == headers_hidden(hv),
                in_grid(row as int, col as int),
                struct_name@.len() > 0,
                i <= custom_headers@.len(),
                next_col == col + columns_before(hv, i as int),
                next_col <= COL_MAX,
                register(m0, name@, hv, row, col, i as int) == (self.model(), Ok::<(), XlsxError>(())),
            decreases custom_headers@.len() - i,
        {
            let h = &custom_headers[i];
            if h.is_skipped() {
                i = i + 1;
                continue;
            }
            if next_col >= COL_MAX as u32 {
                proof {
                    lemma_register_stops(m0, name@, hv, row, col, i + 1, hv.len() as int);
                }
                return Err(XlsxError::RowColumnLimitError);
            }
            let c = next_col as u16;
            let data_row: u32;
            if hidden_headers {
                data_row = row;
            } else {
                match self.store_cell(row, c, CellValue::Text(h.header_name().clone()), h.header_format()) {
                    Err(e) => {
                        proof {
                            lemma_register_stops(m0, name@, hv, row, col, i + 1, hv.len() as int);
                        }
                        return Err(e);
                    },
                    Ok(()) => {},
                }
                data_row = row + 1;
            }
            self.serializer_state.insert(&name, h.placed_at(data_row, c));
            next_col = next_col + 1;
            i = i + 1;
        }
        Ok(())
    }

    /// Registers, at `(row, col)`, a layout for each field of the struct
    /// `data_structure`, in declared order, each with its header styled
    /// with `format`. A value that is not a struct has no name, and is
    /// refused as a blank struct name is.
    pub fn serialize_headers_with_format(
        &mut self,
        row: u32,
        col: u16,
        data_structure: &Value,
        format: &Format,
    ) -> (r: Result<(), XlsxError>)
        requires
            old(self).wf(),
        ensures
            final(self).wf(),
            !in_grid(row as int, col as int) ==> r == Err::<(), XlsxError>(XlsxError::RowColumnLimitError)
                && final(self).model() == old(self).model(),
            in_grid(row as int, col as int) && discovered_name(*data_structure).len() == 0 ==> (r matches Err(
                XlsxError::ParameterError(_),
            )) && final(self).model() == old(self).model(),
            in_grid(row as int, col as int) && discovered_name(*data_structure).len() > 0 ==> (
            final(self).model(),
            r,
            ) == register(
                old(self).model(),
                discovered_name(*data_structure),
                discovered_headers(discovered_fields(*data_structure), Some(*format)),
                row,
                col,
                discovered_fields(*data_structure).len() as int,
            ),
    {
        self.register_discovered(row, col, data_structure, Some(*format))
    }

    /// Registers, at `(row, col)`, a layout for each field of the struct
    /// `data_structure`, in declared order, shown, unrenamed and unstyled.
    /// A value that is not a struct has no name, and is refused as a blank
    /// struct name is.
    pub fn serialize_headers(&mut self, row: u32, col: u16, data_structure: &Value) -> (r: Result<(), XlsxError>)
        requires
            old(self).wf(),
        ensures
            final(self).wf(),
            !in_grid(row as int, col as int) ==> r == Err::<(), XlsxError>(XlsxError::RowColumnLimitError)
                && final(self).model() == old(self).model(),
            in_grid(row as int, col as int) && discovered_name(*data_structure).len() == 0 ==> (r matches Err(
                XlsxError::ParameterError(_),
            )) && final(self).model() == old(self).model(),
            in_grid(row as int, col as int) && discovered_name(*data_structure).len() > 0 ==> (
            final(self).model(),
            r,
            ) == register(
                old(self).model(),
                discovered_name(*data_structure),
                discovered_headers(discovered_fields(*data_structure), None),
                row,
                col,
                discovered_fields(*data_structure).len() as int,
            ),
    {
        self.register_discovered(row, col, data_structure, None)
    }

    /// Runs header discovery on `data_structure` and registers a layout for
    /// each field found, with `header_format` on its header.
    fn register_discovered(
        &mut self,
        row: u32,
        col: u16,
        data_structure: &Value,
        header_format: Option<Format>,
    ) -> (r: Result<(), XlsxError>)
        requires
            old(self).wf(),
        ensures
            final(self).wf(),
            !in_grid(row as int, col as int) ==> r == Err::<(), XlsxError>(XlsxError::RowColumnLimitError)
                && final(self).model() == old(self).model(),
            in_grid(row as int, col as int) && discovered_name(*data_structure).len() == 0 ==> (r matches Err(
                XlsxError::ParameterError(_),
            )) && final(self).model() == old(self).model(),
            in_grid(row as int, col as int) && discovered_name(*data_structure).len() > 0 ==> (
            final(self).model(),
            r,
            ) == register(
                old(self).model(),
                discovered_name(*data_structure),
                discovered_headers(discovered_fields(*data_structure), header_format),
                row,
                col,
                discovered_fields(*data_structure).len() as int,
            ),
    {
        let headers = SerializerHeader::discover(data_structure);
        let mut custom_headers: Vec<CustomSerializeHeader> = Vec::new();
        let ghost names = discovered_fields(*data_structure);
        let mut i: usize = 0;
        while i < headers.field_names.len()
            invariant
                i <= headers.field_names@.len(),
                headers.field_names@.map_values(|f: String| f@) == names,
                custom_headers@.len() == i,
                forall|j: int|
                    0 <= j < i ==> (#[trigger] custom_headers@[j])@ == discovered_headers(names, header_format)[j],
            decreases headers.field_names@.len() - i,
        {
            assert(headers.field_names@[i as int]@ == names[i as int]);
            let name = headers.field_names[i].as_str();
            let header = match &header_format {
                Some(format) => CustomSerializeHeader::new_with_format(name, format),
                None => CustomSerializeHeader::new(name),
            };
            custom_headers.push(header);
            i = i + 1;
        }
        assert(header_views(custom_headers@) =~= discovered_headers(names, header_format));
        self.serialize_headers_with_options(row, col, headers.struct_name.as_str(), custom_headers.as_slice())
    }

    /// Walks `data_structure`, a record or a sequence of records, writing
    /// each scalar met under a registered field to that field's next cell.
    ///
    /// Scalars of unregistered fields are dropped. The first write that
    /// fails stops the walk and its error is returned; the cells written
    /// before it stay.
    pub fn serialize(&mut self, data_structure: &Value) -> (r: Result<(), XlsxError>)
        requires
            old(self).wf(),
        ensures
            final(self).wf(),
            (final(self).model(), r) == run(
                old(self).model(),
                value_scalars(*data_structure, outer_scope()).0,
            ),
    {
        self.serializer_state.current_struct = String::new();
        self.serializer_state.current_field = String::new();
        assert(self.scope() =~= outer_scope());
        self.serialize_value(data_structure)
    }
}

/// The content of each of the layouts `hs`.
pub open spec fn header_views(hs: Seq<CustomSerializeHeader>) -> Seq<HeaderView> {
    hs.map_values(|h: CustomSerializeHeader| h@)
}

/// The struct name that header discovery finds in `v`: that of a struct,
/// and none for any other shape.
pub open spec fn discovered_name(v: Value) -> Seq<char> {
    match v {
        Value::Struct { name, .. } => name@,
        _ => Seq::empty(),
    }
}

/// The field names, in declared order, that header discovery finds in `v`.
pub open spec fn discovered_fields(v: Value) -> Seq<Seq<char>> {
    match v {
        Value::Struct { fields, .. } => fields@.map_values(|f: (String, Value)| f.0@),
        _ => Seq::empty(),
    }
}

/// Shown, unrenamed layouts for the fields `names`, with `header_format`
/// on their headers.
pub open spec fn discovered_headers(names: Seq<Seq<char>>, header_format: Option<Format>) -> Seq<HeaderView> {
    names.map_values(|n: Seq<char>| HeaderView { header_format, ..default_header(n) })
}

/// What header discovery finds in a value: the struct's name and its
/// field names in declared order. Field values are not read.
struct SerializerHeader {
    struct_name: String,
    field_names: Vec<String>,
}

impl SerializerHeader {
    /// The struct name and field names of `v`.
    fn discover(v: &Value) -> (r: SerializerHeader)
        ensures
            r.struct_name@ == discovered_name(*v),
            r.field_names@.map_values(|f: String| f@) == discovered_fields(*v),
    {
        let mut headers = SerializerHeader { struct_name: String::new(), field_names: Vec::new() };
        if let Value::Struct { name, fields } = v {
            headers.struct_name = name.clone();
            let mut i: usize = 0;
            while i < fields.len()
                invariant
                    i <= fields@.len(),
                    headers.struct_name@ == name@,
                    headers.field_names@.len() == i,
                    forall|j: int| 0 <= j < i ==> (#[trigger] headers.field_names@[j])@ == fields@[j].0@,
                decreases fields@.len() - i,
            {
                headers.field_names.push(fields[i].0.clone());
                i = i + 1;
            }
            assert(headers.field_names@.map_values(|f: String| f@) =~= discovered_fields(*v));
        } else {
            assert(headers.field_names@.map_values(|f: String| f@) =~= discovered_fields(*v));
        }
        headers
    }
}

} // verus!
