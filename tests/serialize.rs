use xlsx_serde::{CellValue, CustomSerializeHeader, Format, Value, Worksheet, XlsxError, ROW_MAX};

fn text(s: &str) -> CellValue {
    CellValue::Text(s.to_string())
}

fn record(name: &str, fields: Vec<(&str, Value)>) -> Value {
    Value::Struct {
        name: name.to_string(),
        fields: fields.into_iter().map(|(f, v)| (f.to_string(), v)).collect(),
    }
}

fn student(name: &str, age: i64) -> Value {
    record("Student", vec![("name", Value::Str(name.to_string())), ("age", Value::Int(age))])
}

fn value_at(ws: &Worksheet, row: u32, col: u16) -> Option<&CellValue> {
    ws.read_cell(row, col).map(|c| &c.value)
}

#[test]
fn headers_are_written_from_the_struct_fields() {
    let mut ws = Worksheet::new();
    ws.serialize_headers(0, 0, &student("Aoife", 25)).unwrap();
    assert_eq!(value_at(&ws, 0, 0), Some(&text("name")));
    assert_eq!(value_at(&ws, 0, 1), Some(&text("age")));
    assert_eq!(ws.read_cell(0, 0).unwrap().format, None);
    assert_eq!(value_at(&ws, 1, 0), None);
}

#[test]
fn each_call_writes_the_next_row() {
    let mut ws = Worksheet::new();
    ws.serialize_headers(0, 0, &student("Aoife", 25)).unwrap();
    ws.serialize(&student("Aoife", 25)).unwrap();
    ws.serialize(&student("Caoimhe", 21)).unwrap();
    ws.serialize(&student("Eimear", 23)).unwrap();
    assert_eq!(value_at(&ws, 1, 0), Some(&text("Aoife")));
    assert_eq!(value_at(&ws, 1, 1), Some(&CellValue::Int(25)));
    assert_eq!(value_at(&ws, 2, 0), Some(&text("Caoimhe")));
    assert_eq!(value_at(&ws, 2, 1), Some(&CellValue::Int(21)));
    assert_eq!(value_at(&ws, 3, 0), Some(&text("Eimear")));
    assert_eq!(value_at(&ws, 3, 1), Some(&CellValue::Int(23)));
    assert_eq!(ws.layout_entry("Student", "name").unwrap().row(), 4);
}

#[test]
fn a_sequence_of_three_records_fills_rows_one_to_three() {
    let mut ws = Worksheet::new();
    ws.serialize_headers(0, 0, &student("x", 0)).unwrap();
    let batch = Value::Sequence(vec![student("Aoife", 25), student("Caoimhe", 21), student("Eimear", 23)]);
    ws.serialize(&batch).unwrap();
    assert_eq!(value_at(&ws, 1, 0), Some(&text("Aoife")));
    assert_eq!(value_at(&ws, 2, 0), Some(&text("Caoimhe")));
    assert_eq!(value_at(&ws, 3, 0), Some(&text("Eimear")));
    assert_eq!(value_at(&ws, 1, 1), Some(&CellValue::Int(25)));
    assert_eq!(value_at(&ws, 2, 1), Some(&CellValue::Int(21)));
    assert_eq!(value_at(&ws, 3, 1), Some(&CellValue::Int(23)));
    assert_eq!(value_at(&ws, 4, 0), None);
    assert_eq!(value_at(&ws, 4, 1), None);
}

#[test]
fn re_registering_keeps_the_columns() {
    let mut ws = Worksheet::new();
    let layout = || {
        vec![
            CustomSerializeHeader::new("name"),
            CustomSerializeHeader::new("age").skip(true),
            CustomSerializeHeader::new("grade"),
        ]
    };
    ws.serialize_headers_with_options(2, 3, "Student", &layout()).unwrap();
    let first = (ws.layout_entry("Student", "name").unwrap().col(), ws.layout_entry("Student", "grade").unwrap().col());
    ws.serialize_headers_with_options(2, 3, "Student", &layout()).unwrap();
    let second = (ws.layout_entry("Student", "name").unwrap().col(), ws.layout_entry("Student", "grade").unwrap().col());
    assert_eq!(first, (3, 4));
    assert_eq!(first, second);
}

#[test]
fn a_skipped_field_takes_no_column() {
    let mut ws = Worksheet::new();
    let headers = vec![
        CustomSerializeHeader::new("a"),
        CustomSerializeHeader::new("b").skip(true),
        CustomSerializeHeader::new("c"),
        CustomSerializeHeader::new("d"),
    ];
    ws.serialize_headers_with_options(0, 0, "R", &headers).unwrap();
    assert_eq!(ws.layout_entry("R", "a").unwrap().col(), 0);
    assert!(ws.layout_entry("R", "b").is_none());
    assert_eq!(ws.layout_entry("R", "c").unwrap().col(), 1);
    assert_eq!(ws.layout_entry("R", "d").unwrap().col(), 2);
    assert_eq!(value_at(&ws, 0, 1), Some(&text("c")));
    assert_eq!(value_at(&ws, 0, 3), None);
    let r = record("R", vec![("a", Value::Int(1)), ("b", Value::Int(2)), ("c", Value::Int(3)), ("d", Value::Int(4))]);
    ws.serialize(&r).unwrap();
    assert_eq!(value_at(&ws, 1, 0), Some(&CellValue::Int(1)));
    assert_eq!(value_at(&ws, 1, 1), Some(&CellValue::Int(3)));
    assert_eq!(value_at(&ws, 1, 2), Some(&CellValue::Int(4)));
    assert_eq!(value_at(&ws, 1, 3), None);
}

#[test]
fn an_unregistered_field_is_dropped() {
    let mut ws = Worksheet::new();
    let headers = vec![CustomSerializeHeader::new("name")];
    ws.serialize_headers_with_options(0, 0, "Student", &headers).unwrap();
    ws.serialize(&student("Aoife", 25)).unwrap();
    assert_eq!(value_at(&ws, 1, 0), Some(&text("Aoife")));
    assert_eq!(value_at(&ws, 1, 1), None);
    assert_eq!(ws.read_cell(0, 1), None);
    assert!(ws.layout_entry("Student", "age").is_none());
}

#[test]
fn hidden_headers_start_the_data_on_the_header_row() {
    let mut ws = Worksheet::new();
    let headers = vec![CustomSerializeHeader::new("name"), CustomSerializeHeader::new("age").hide_headers(true)];
    ws.serialize_headers_with_options(4, 0, "Student", &headers).unwrap();
    assert_eq!(value_at(&ws, 4, 0), None);
    assert_eq!(ws.layout_entry("Student", "name").unwrap().row(), 4);
    ws.serialize(&student("Aoife", 25)).unwrap();
    assert_eq!(value_at(&ws, 4, 0), Some(&text("Aoife")));
    assert_eq!(value_at(&ws, 4, 1), Some(&CellValue::Int(25)));

    let mut shown = Worksheet::new();
    let headers = vec![CustomSerializeHeader::new("name"), CustomSerializeHeader::new("age")];
    shown.serialize_headers_with_options(4, 0, "Student", &headers).unwrap();
    assert_eq!(shown.layout_entry("Student", "name").unwrap().row(), 5);
}

#[test]
fn two_struct_types_keep_their_own_regions() {
    let mut ws = Worksheet::new();
    let a = |x: i64| record("A", vec![("x", Value::Int(x))]);
    let b = |y: i64| record("B", vec![("y", Value::Int(y))]);
    ws.serialize_headers(0, 0, &a(0)).unwrap();
    ws.serialize_headers(0, 5, &b(0)).unwrap();
    ws.serialize(&a(1)).unwrap();
    ws.serialize(&b(10)).unwrap();
    ws.serialize(&b(20)).unwrap();
    ws.serialize(&a(2)).unwrap();
    ws.serialize(&b(30)).unwrap();
    assert_eq!(value_at(&ws, 1, 0), Some(&CellValue::Int(1)));
    assert_eq!(value_at(&ws, 2, 0), Some(&CellValue::Int(2)));
    assert_eq!(value_at(&ws, 3, 0), None);
    assert_eq!(value_at(&ws, 1, 5), Some(&CellValue::Int(10)));
    assert_eq!(value_at(&ws, 2, 5), Some(&CellValue::Int(20)));
    assert_eq!(value_at(&ws, 3, 5), Some(&CellValue::Int(30)));
}

#[test]
fn a_blank_struct_name_is_refused() {
    let mut ws = Worksheet::new();
    let headers = vec![CustomSerializeHeader::new("a")];
    let r = ws.serialize_headers_with_options(0, 0, "", &headers);
    assert!(matches!(r, Err(XlsxError::ParameterError(_))));
    assert_eq!(ws.read_cell(0, 0), None);
}

#[test]
fn a_value_that_is_not_a_struct_has_no_headers() {
    let mut ws = Worksheet::new();
    let r = ws.serialize_headers(0, 0, &Value::Sequence(vec![student("Aoife", 25)]));
    assert!(matches!(r, Err(XlsxError::ParameterError(_))));
}

#[test]
fn an_absent_field_still_moves_its_cursor() {
    let mut ws = Worksheet::new();
    let headers = vec![CustomSerializeHeader::new("name"), CustomSerializeHeader::new("nickname")];
    ws.serialize_headers_with_options(0, 0, "P", &headers).unwrap();
    let with_none = record("P", vec![("name", Value::Str("Aoife".to_string())), ("nickname", Value::Absent)]);
    let with_some = record(
        "P",
        vec![("name", Value::Str("Caoimhe".to_string())), ("nickname", Value::Present(Box::new(Value::Str("Cee".to_string()))))],
    );
    ws.serialize(&with_none).unwrap();
    ws.serialize(&with_some).unwrap();
    assert_eq!(value_at(&ws, 1, 1), Some(&text("")));
    assert_eq!(value_at(&ws, 2, 0), Some(&text("Caoimhe")));
    assert_eq!(value_at(&ws, 2, 1), Some(&text("Cee")));
    assert_eq!(ws.layout_entry("P", "nickname").unwrap().row(), 3);
}

#[test]
fn registration_off_the_grid_is_refused() {
    let mut ws = Worksheet::new();
    let headers = vec![CustomSerializeHeader::new("a")];
    assert_eq!(ws.serialize_headers_with_options(ROW_MAX, 0, "R", &headers), Err(XlsxError::RowColumnLimitError));
    assert_eq!(ws.serialize_headers_with_options(0, 16_384, "R", &headers), Err(XlsxError::RowColumnLimitError));
    assert!(ws.layout_entry("R", "a").is_none());
}

#[test]
fn columns_past_the_last_are_refused() {
    let mut ws = Worksheet::new();
    let headers = vec![CustomSerializeHeader::new("a"), CustomSerializeHeader::new("b")];
    let r = ws.serialize_headers_with_options(0, 16_383, "R", &headers);
    assert_eq!(r, Err(XlsxError::RowColumnLimitError));
    assert_eq!(ws.layout_entry("R", "a").unwrap().col(), 16_383);
    assert!(ws.layout_entry("R", "b").is_none());
}

#[test]
fn writing_past_the_last_row_stops_the_walk() {
    let mut ws = Worksheet::new();
    let headers = vec![CustomSerializeHeader::new("x")];
    ws.serialize_headers_with_options(ROW_MAX - 2, 0, "R", &headers).unwrap();
    ws.serialize(&record("R", vec![("x", Value::Int(1))])).unwrap();
    let r = ws.serialize(&record("R", vec![("x", Value::Int(2))]));
    assert_eq!(r, Err(XlsxError::RowColumnLimitError));
    assert_eq!(value_at(&ws, ROW_MAX - 1, 0), Some(&CellValue::Int(1)));
    assert_eq!(ws.layout_entry("R", "x").unwrap().row(), ROW_MAX);
}

#[test]
fn a_text_too_long_for_a_cell_is_refused() {
    let mut ws = Worksheet::new();
    let headers = vec![CustomSerializeHeader::new("a"), CustomSerializeHeader::new("b")];
    ws.serialize_headers_with_options(0, 0, "R", &headers).unwrap();
    let long = "x".repeat(32_768);
    let r = ws.serialize(&record("R", vec![("a", Value::Int(7)), ("b", Value::Str(long)), ("a", Value::Int(8))]));
    assert_eq!(r, Err(XlsxError::MaxStringLengthExceeded));
    assert_eq!(value_at(&ws, 1, 0), Some(&CellValue::Int(7)));
    assert_eq!(value_at(&ws, 1, 1), None);
    assert_eq!(value_at(&ws, 2, 0), None);
    assert_eq!(ws.layout_entry("R", "b").unwrap().row(), 1);
    let fits = "y".repeat(32_767);
    assert_eq!(ws.write(5, 5, CellValue::Text(fits.clone())), Ok(()));
    assert_eq!(value_at(&ws, 5, 5), Some(&CellValue::Text(fits)));
}

#[test]
fn styles_go_to_header_and_data_cells() {
    let mut ws = Worksheet::new();
    let bold = Format::new(3);
    let money = Format::new(7);
    let headers = vec![
        CustomSerializeHeader::new("price").rename("Price (EUR)").set_header_format(&bold).set_cell_format(&money),
        CustomSerializeHeader::new("item"),
    ];
    ws.serialize_headers_with_options(0, 0, "Line", &headers).unwrap();
    let header = ws.read_cell(0, 0).unwrap();
    assert_eq!(header.value, text("Price (EUR)"));
    assert_eq!(header.format, Some(bold));
    assert_eq!(ws.read_cell(0, 1).unwrap().format, None);
    ws.serialize(&record("Line", vec![("item", Value::Str("tea".to_string())), ("price", Value::Float(2.5f64.to_bits()))]))
        .unwrap();
    let price = ws.read_cell(1, 0).unwrap();
    assert_eq!(price.value, CellValue::Float(2.5f64.to_bits()));
    assert_eq!(price.format, Some(money));
    assert_eq!(ws.read_cell(1, 1).unwrap().format, None);
}

#[test]
fn headers_with_a_format_style_every_header() {
    let mut ws = Worksheet::new();
    let f = Format::new(9);
    ws.serialize_headers_with_format(1, 2, &student("x", 0), &f).unwrap();
    assert_eq!(ws.read_cell(1, 2).unwrap().format, Some(f));
    assert_eq!(ws.read_cell(1, 3).unwrap().format, Some(f));
    assert_eq!(ws.read_cell(1, 3).unwrap().value, text("age"));
    assert_eq!(ws.layout_entry("Student", "age").unwrap().header_format(), Some(f));
}

#[test]
fn builders_set_each_option() {
    let f = Format::new(1);
    let h = CustomSerializeHeader::new("id");
    assert_eq!(h.field_name(), "id");
    assert_eq!(h.header_name(), "id");
    assert!(!h.is_skipped() && !h.hides_headers());
    assert_eq!(h.header_format(), None);
    let h = h.rename("ID").set_header_format(&f).set_cell_format(&Format::new(2)).skip(true).hide_headers(true);
    assert_eq!(h.header_name(), "ID");
    assert_eq!(h.field_name(), "id");
    assert_eq!(h.header_format(), Some(f));
    assert_eq!(h.cell_format(), Some(Format::new(2)));
    assert!(h.is_skipped() && h.hides_headers());
    assert_eq!(Format::new(4).style_id(), 4);
    assert_eq!(Format::default().style_id(), 0);
}

#[test]
fn shapes_are_written_or_dropped_by_kind() {
    let mut ws = Worksheet::new();
    let names = ["c", "bytes", "unit", "tag", "wrapped", "newtype", "list", "pair", "tv", "sv", "m", "flag", "n"];
    let headers: Vec<CustomSerializeHeader> = names.iter().map(|n| CustomSerializeHeader::new(n)).collect();
    ws.serialize_headers_with_options(0, 0, "S", &headers).unwrap();
    let v = record(
        "S",
        vec![
            ("c", Value::Char('é')),
            ("bytes", Value::Bytes(vec![1, 2, 3])),
            ("unit", Value::Unit),
            ("tag", Value::UnitVariant { variant: "Red".to_string() }),
            ("wrapped", Value::NewtypeVariant { variant: "W".to_string(), value: Box::new(Value::Int(1)) }),
            ("newtype", Value::NewtypeStruct(Box::new(Value::UInt(u64::MAX)))),
            ("list", Value::Sequence(vec![Value::Int(1), Value::Int(2)])),
            ("pair", Value::Tuple(vec![Value::Bool(true), Value::Int(-3)])),
            ("tv", Value::TupleVariant { variant: "T".to_string(), values: vec![Value::Int(5)] }),
            ("sv", Value::StructVariant { variant: "V".to_string(), fields: vec![("k".to_string(), Value::Int(1))] }),
            ("m", Value::Entries(vec![(Value::Str("key".to_string()), Value::Int(9))])),
            ("flag", Value::Bool(false)),
            ("n", Value::UnitStruct),
        ],
    );
    ws.serialize(&v).unwrap();
    assert_eq!(value_at(&ws, 1, 0), Some(&text("é")));
    assert_eq!(value_at(&ws, 1, 1), None);
    assert_eq!(value_at(&ws, 1, 2), Some(&text("")));
    assert_eq!(value_at(&ws, 1, 3), None);
    assert_eq!(value_at(&ws, 1, 4), None);
    assert_eq!(value_at(&ws, 1, 5), Some(&CellValue::UInt(u64::MAX)));
    assert_eq!(value_at(&ws, 1, 6), Some(&CellValue::Int(1)));
    assert_eq!(value_at(&ws, 2, 6), Some(&CellValue::Int(2)));
    assert_eq!(value_at(&ws, 1, 7), Some(&CellValue::Bool(true)));
    assert_eq!(value_at(&ws, 2, 7), Some(&CellValue::Int(-3)));
    assert_eq!(value_at(&ws, 1, 8), Some(&text("T")));
    assert_eq!(value_at(&ws, 2, 8), Some(&CellValue::Int(5)));
    assert_eq!(value_at(&ws, 1, 9), None);
    assert_eq!(value_at(&ws, 1, 10), Some(&text("key")));
    assert_eq!(value_at(&ws, 2, 10), Some(&CellValue::Int(9)));
    assert_eq!(value_at(&ws, 1, 11), Some(&CellValue::Bool(false)));
    assert_eq!(value_at(&ws, 1, 12), Some(&text("")));
    assert_eq!(ws.layout_entry("S", "bytes").unwrap().row(), 1);
}

#[test]
fn a_bare_scalar_outside_any_struct_is_dropped() {
    let mut ws = Worksheet::new();
    ws.serialize_headers(0, 0, &student("x", 0)).unwrap();
    ws.serialize(&student("Aoife", 25)).unwrap();
    ws.serialize(&Value::Str("loose".to_string())).unwrap();
    assert_eq!(value_at(&ws, 2, 0), None);
    assert_eq!(ws.layout_entry("Student", "name").unwrap().row(), 2);
}

#[test]
fn a_later_write_replaces_the_cell() {
    let mut ws = Worksheet::new();
    ws.write(3, 3, CellValue::Int(1)).unwrap();
    ws.write_with_format(3, 3, CellValue::Int(2), &Format::new(5)).unwrap();
    let c = ws.read_cell(3, 3).unwrap();
    assert_eq!(c.value, CellValue::Int(2));
    assert_eq!(c.format, Some(Format::new(5)));
    assert_eq!(ws.write(ROW_MAX, 0, CellValue::Int(1)), Err(XlsxError::RowColumnLimitError));
}
