use metric_table::records::{status_row, table_from_records, Record, UnitClass};
use metric_table::value::Value;

fn rec(name: &str, unit: UnitClass) -> Record {
    Record {
        name: name.to_string(),
        unit,
        labels: Vec::new(),
    }
}

#[test]
fn simple_header() {
    let table = table_from_records(vec![
        rec("val_a", UnitClass::Plain),
        rec("val_b", UnitClass::Plain),
    ]);
    assert_eq!(table.header(), ["val_a val_b"].join("\n"));
}

#[test]
fn composite_header() {
    let table = table_from_records(vec![
        rec("g1.val_a", UnitClass::Plain),
        rec("g1.val_b", UnitClass::Plain),
    ]);
    assert_eq!(table.header(), ["    g1", "val_a val_b"].join("\n"));
}

#[test]
fn simple_status() {
    let mut table = table_from_records(vec![
        rec("val_a", UnitClass::Plain),
        rec("val_b", UnitClass::Plain),
    ]);
    let row = status_row(
        &mut table,
        vec![
            ("val_a".to_string(), Value::Int(10)),
            ("val_b".to_string(), Value::Int(20)),
        ],
    );
    assert_eq!(row, ["   10    20"].join("\n"));
}

#[test]
fn simple_difference() {
    // A rate-like unit shows the change of the counter between ticks: the
    // counter reads 10 and later 32, so the second line shows 22.
    let mut table = table_from_records(vec![rec("val_a", UnitClass::PerSecond)]);
    let row = status_row(&mut table, vec![("val_a".to_string(), Value::Int(10))]);
    assert_eq!(row, ["   10"].join("\n"));
    let row = status_row(&mut table, vec![("val_a".to_string(), Value::Int(32))]);
    assert_eq!(row, ["   22"].join("\n"));
}

#[test]
fn status_preserves_order() {
    // Values are displayed in header order, whatever order the snapshot
    // lists them in.
    let mut table = table_from_records(vec![
        rec("a.val_a", UnitClass::Plain),
        rec("val_b", UnitClass::Plain),
    ]);
    let row = status_row(
        &mut table,
        vec![
            ("val_b".to_string(), Value::Int(20)),
            ("a.val_a".to_string(), Value::Int(10)),
        ],
    );
    assert_eq!(row, ["   10      20"].join("\n"));
}

#[test]
fn header_sorts_flat_names() {
    let table = table_from_records(vec![
        rec("bravo", UnitClass::Plain),
        rec("alpha", UnitClass::Plain),
        rec("charlie", UnitClass::Plain),
    ]);
    assert_eq!(table.header(), "alpha bravo charlie");
}

#[test]
fn header_rebuild_is_identical() {
    let t1 = table_from_records(vec![
        rec("g1.c1", UnitClass::Plain),
        rec("g2.c2", UnitClass::Plain),
        rec("solo", UnitClass::Plain),
    ]);
    let t2 = table_from_records(vec![
        rec("solo", UnitClass::Plain),
        rec("g2.c2", UnitClass::Plain),
        rec("g1.c1", UnitClass::Plain),
    ]);
    assert_eq!(t1.header(), t2.header());
}

#[test]
fn histogram_label_selects_bars() {
    let mut table = table_from_records(vec![Record {
        name: "load".to_string(),
        unit: UnitClass::Plain,
        labels: vec![("view".to_string(), "histogram".to_string())],
    }]);
    let row = status_row(&mut table, vec![("load".to_string(), Value::Int(3))]);
    assert_eq!(row, "### ");
}

#[test]
fn empty_snapshot_renders_blank() {
    let mut table = table_from_records(vec![]);
    assert_eq!(table.header(), "");
    assert_eq!(status_row(&mut table, vec![]), "");
}

#[test]
fn gauge_text_passes_through() {
    let mut table = table_from_records(vec![rec("gauge", UnitClass::Plain)]);
    let row = status_row(
        &mut table,
        vec![("gauge".to_string(), Value::Text("2.25".to_string()))],
    );
    assert_eq!(row, " 2.25");
}

#[test]
fn unknown_names_sort_first() {
    let mut table = table_from_records(vec![rec("known", UnitClass::Plain)]);
    let row = status_row(
        &mut table,
        vec![
            ("known".to_string(), Value::Int(7)),
            ("stray".to_string(), Value::Int(9)),
        ],
    );
    // The stray value takes the first column; the known value follows in
    // the second position and is ignored for want of a field.
    assert_eq!(row, "    9");
}
