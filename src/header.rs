use vstd::prelude::*;
use crate::format::Format;

verus! {

/// The layout of one field of a struct type: its header text, its styles,
/// whether it is shown, and (once registered) the next cell it writes to.
pub struct CustomSerializeHeader {
    field_name: String,
    header_name: String,
    header_format: Option<Format>,
    cell_format: Option<Format>,
    skip: bool,
    hide_headers: bool,
    row: u32,
    col: u16,
}

/// The content of a [`CustomSerializeHeader`].
pub struct HeaderView {
    pub field_name: Seq<char>,
    pub header_name: Seq<char>,
    pub header_format: Option<Format>,
    pub cell_format: Option<Format>,
    pub skip: bool,
    pub hide_headers: bool,
    pub row: u32,
    pub col: u16,
}

impl View for CustomSerializeHeader {
    type V = HeaderView;

    closed spec fn view(&self) -> HeaderView {
        HeaderView {
            field_name: self.field_name@,
            header_name: self.header_name@,
            header_format: self.header_format,
            cell_format: self.cell_format,
            skip: self.skip,
            hide_headers: self.hide_headers,
            row: self.row,
            col: self.col,
        }
    }
}

/// The layout of a field before any option is set: shown, unstyled, with
/// the field's own name as header.
pub open spec fn default_header(field_name: Seq<char>) -> HeaderView {
    HeaderView {
        field_name,
        header_name: field_name,
        header_format: None,
        cell_format: None,
        skip: false,
        hide_headers: false,
        row: 0,
        col: 0,
    }
}

impl CustomSerializeHeader {
    /// The layout of the field `field_name`, with its own name as header.
    pub fn new(field_name: &str) -> (r: CustomSerializeHeader)
        ensures
            r@ == default_header(field_name@),
    {
        CustomSerializeHeader {
            field_name: field_name.to_owned(),
            header_name: field_name.to_owned(),
            header_format: None,
            cell_format: None,
            skip: false,
            hide_headers: false,
            row: 0,
            col: 0,
        }
    }

    /// Writes `name` in the header cell in place of the field's name.
    pub fn rename(self, name: &str) -> (r: CustomSerializeHeader)
        ensures
            r@ == (HeaderView { header_name: name@, ..self@ }),
    {
        let mut h = self;
        h.header_name = name.to_owned();
        h
    }

    /// Styles the header cell with `format`.
    pub fn set_header_format(self, format: &Format) -> (r: CustomSerializeHeader)
        ensures
            r@ == (HeaderView { header_format: Some(*format), ..self@ }),
    {
        let mut h = self;
        h.header_format = Some(*format);
        h
    }

    /// Styles the data cells of the field with `format`.
    pub fn set_cell_format(self, format: &Format) -> (r: CustomSerializeHeader)
        ensures
            r@ == (HeaderView { cell_format: Some(*format), ..self@ }),
    {
        let mut h = self;
        h.cell_format = Some(*format);
        h
    }

    /// Leaves the field out of the layout when `enable` holds: it takes no
    /// column and is never written.
    pub fn skip(self, enable: bool) -> (r: CustomSerializeHeader)
        ensures
            r@ == (HeaderView { skip: enable, ..self@ }),
    {
        let mut h = self;
        h.skip = enable;
        h
    }

    /// Asks, when `enable` holds, that no header row be written for the
    /// layout this field is registered with.
    pub fn hide_headers(self, enable: bool) -> (r: CustomSerializeHeader)
        ensures
            r@ == (HeaderView { hide_headers: enable, ..self@ }),
    {
        let mut h = self;
        h.hide_headers = enable;
        h
    }

    /// The layout of the field `field_name` with a styled header.
    pub fn new_with_format(field_name: &str, format: &Format) -> (r: CustomSerializeHeader)
        ensures
            r@ == (HeaderView { header_format: Some(*format), ..default_header(field_name@) }),
    {
        CustomSerializeHeader::new(field_name).set_header_format(format)
    }

    /// The name of the field this layout is for.
    pub fn field_name(&self) -> (r: &String)
        ensures
            r@ == self@.field_name,
    {
        &self.field_name
    }

    /// The text of the header cell.
    pub fn header_name(&self) -> (r: &String)
        ensures
            r@ == self@.header_name,
    {
        &self.header_name
    }

    /// The style of the header cell.
    pub fn header_format(&self) -> (r: Option<Format>)
        ensures
            r == self@.header_format,
    {
        self.header_format
    }

    /// The style of the field's data cells.
    pub fn cell_format(&self) -> (r: Option<Format>)
        ensures
            r == self@.cell_format,
    {
        self.cell_format
    }

    /// Whether the field is left out of the layout.
    pub fn is_skipped(&self) -> (r: bool)
        ensures
            r == self@.skip,
    {
        self.skip
    }

    /// Whether the field asks for the header row to be hidden.
    pub fn hides_headers(&self) -> (r: bool)
        ensures
            r == self@.hide_headers,
    {
        self.hide_headers
    }

    /// The row of the next cell this field writes to.
    pub fn row(&self) -> (r: u32)
        ensures
            r == self@.row,
    {
        self.row
    }

    /// The column this field writes to.
    pub fn col(&self) -> (r: u16)
        ensures
            r == self@.col,
    {
        self.col
    }

    /// A copy of this layout that writes next to `(row, col)`.
    pub(crate) fn placed_at(&self, row: u32, col: u16) -> (r: CustomSerializeHeader)
        ensures
            r@ == (HeaderView { row, col, ..self@ }),
    {
        CustomSerializeHeader {
            field_name: self.field_name.clone(),
            header_name: self.header_name.clone(),
            header_format: self.header_format,
            cell_format: self.cell_format,
            skip: self.skip,
            hide_headers: self.hide_headers,
            row,
            col,
        }
    }

    /// Moves the field's cursor one row down.
    pub(crate) fn advance_row(&mut self)
        requires
            old(self)@.row < u32::MAX,
        ensures
            final(self)@ == (HeaderView { row: (old(self)@.row + 1) as u32, ..old(self)@ }),
    {
        self.row = self.row + 1;
    }
}

} // verus!
