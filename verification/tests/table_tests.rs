use metric_table::table::{Table, TableBuilder};
use metric_table::value::{DisplayKind, Value};

fn table_a() -> Table {
    TableBuilder::new()
        .group(
            "input",
            TableBuilder::new()
                .field("counter", DisplayKind::Number)
                .field("counter2", DisplayKind::Number),
        )
        .build()
}

#[test]
fn header_simple() {
    let expected_l1 = "     input";
    let expected_l2 = "counter counter2";
    assert_eq!(table_a().header(), [expected_l1, expected_l2].join("\n"));
}

#[test]
fn index_simple() {
    let table = table_a();

    let i_counter = table.position_of(vec!["input".to_string(), "counter".to_string()]);
    assert_eq!(i_counter, Some(0));
    let i_counter2 = table.position_of(vec!["input".to_string(), "counter2".to_string()]);
    assert_eq!(i_counter2, Some(1));
    let i_counter3 = table.position_of(vec!["input".to_string(), "counter3".to_string()]);
    assert_eq!(i_counter3, None);
}

#[test]
fn value_simple() {
    let mut table = table_a();
    assert_eq!(
        &table.display_row(vec![Value::Int(2), Value::Int(324)]),
        "      2      324",
    );
}

#[test]
fn value_enlargement() {
    let mut table = table_a();
    let actual = table.display_row(vec![Value::Int(2), Value::Int(324)]);
    let expected = "      2      324";
    assert_eq!(actual, expected);
    let actual = table.display_row(vec![Value::Int(11111111111), Value::Int(324)]);
    let expected = " 11111111111      324";
    assert_eq!(actual, expected);
    let actual = table.display_row(vec![Value::Int(111111111111), Value::Int(324)]);
    let expected = "111111111111      324";
    assert_eq!(actual, expected);
    let actual = table.display_row(vec![Value::Int(2), Value::Int(324)]);
    let expected = "           2      324";
    assert_eq!(actual, expected);
}

fn table_b() -> Table {
    TableBuilder::new()
        .group(
            "g1",
            TableBuilder::new()
                .field("c1", DisplayKind::Number)
                .field("c2", DisplayKind::Number),
        )
        .group(
            "g2",
            TableBuilder::new()
                .field("c3", DisplayKind::Number)
                .field("c4", DisplayKind::Number),
        )
        .build()
}

#[test]
fn header_with_multiple_groups() {
    assert_eq!(
        table_b().header(),
        [
            //
            " g1   |  g2",
            "c1 c2 | c3 c4",
        ]
        .join("\n")
    );
}

#[test]
fn index_with_multiple_groups() {
    let table = table_b();
    let actual = table.position_of(vec!["g1".to_string(), "c2".to_string()]);
    let expected = Some(1);
    assert_eq!(actual, expected);
    let actual = table.position_of(vec!["g2".to_string(), "c3".to_string()]);
    let expected = Some(2);
    assert_eq!(actual, expected);
}

#[test]
fn table_with_blank_spots() {
    // Make sure group splitting keeps alignment when a column
    // (C in this example) has no super-group:
    let expected_l1 = "G1  |   | G2";
    let expected_l2 = "A B | C | D E";
    let expected_l3 = "1 2   3   4 5";

    let mut table = TableBuilder::new()
        .group(
            "G1",
            TableBuilder::new()
                .field("A", DisplayKind::Number)
                .field("B", DisplayKind::Number),
        )
        .field("C", DisplayKind::Number)
        .group(
            "G2",
            TableBuilder::new()
                .field("D", DisplayKind::Number)
                .field("E", DisplayKind::Number),
        )
        .build();
    let expected_header = [expected_l1, expected_l2].join("\n");
    assert_eq!(table.header(), expected_header);
    let actual = table.display_row(vec![
        Value::Int(1),
        Value::Int(2),
        Value::Int(3),
        Value::Int(4),
        Value::Int(5),
    ]);
    assert_eq!(actual, expected_l3);
}

#[test]
fn table_with_large_group_label() {
    // Make sure column headers which are smaller than their parent
    // group, fill their space to align. In this example, "A" should
    // take 5 spaces, like "Large"
    let expected_l1 = "Large |";
    let expected_l2 = "A     | B";
    let expected_l3 = "    1   2";

    let mut table = TableBuilder::new()
        .group(
            "Large",
            TableBuilder::new().field("A", DisplayKind::Number),
        )
        .field("B", DisplayKind::Number)
        .build();
    let expected_header = [expected_l1, expected_l2].join("\n");
    assert_eq!(table.header(), expected_header);
    let actual = table.display_row(vec![Value::Int(1), Value::Int(2)]);
    assert_eq!(actual, expected_l3);
}

#[test]
fn value_with_multiple_groups() {
    let mut table = table_b();
    assert_eq!(
        &table.display_row(vec![
            Value::Int(1),
            Value::Int(2),
            Value::Int(3),
            Value::Int(4)
        ]),
        " 1  2    3  4"
    );
}

#[test]
fn value_difference() {
    let mut table = TableBuilder::new()
        .field("c1", DisplayKind::Difference)
        .build();
    assert_eq!(&table.display_row(vec![Value::Int(1)]), " 1");
    assert_eq!(&table.display_row(vec![Value::Int(3)]), " 2");
}

#[test]
fn value_histogram() {
    let mut table = TableBuilder::new()
        .field("c1", DisplayKind::Histogram)
        .build();
    assert_eq!(&table.display_row(vec![Value::Int(1)]), "# ");
    assert_eq!(&table.display_row(vec![Value::Int(3)]), "### ");
    assert_eq!(&table.display_row(vec![Value::Int(1)]), "#   ");
    assert_eq!(&table.display_row(vec![Value::Int(4)]), "####");
}

#[test]
fn empty_table_renders_blank() {
    let mut table = TableBuilder::new().build();
    assert_eq!(table.header(), "");
    assert_eq!(table.display_row(vec![]), "");
}

#[test]
fn histogram_of_zero_or_negative_is_empty() {
    let mut table = TableBuilder::new()
        .field("bar", DisplayKind::Histogram)
        .build();
    assert_eq!(&table.display_row(vec![Value::Int(0)]), "   ");
    assert_eq!(&table.display_row(vec![Value::Int(-5)]), "   ");
    assert_eq!(&table.display_row(vec![Value::Int(2)]), "## ");
}

#[test]
fn text_value_shows_as_its_text() {
    let mut table = TableBuilder::new()
        .field("gauge", DisplayKind::Number)
        .build();
    assert_eq!(
        &table.display_row(vec![Value::Text("2.5".to_string())]),
        "  2.5"
    );
}

#[test]
fn difference_with_text_falls_back_to_raw() {
    let mut table = TableBuilder::new()
        .field("gauge", DisplayKind::Difference)
        .build();
    assert_eq!(
        &table.display_row(vec![Value::Text("1.5".to_string())]),
        "  1.5"
    );
    assert_eq!(
        &table.display_row(vec![Value::Text("2.5".to_string())]),
        "  2.5"
    );
}

#[test]
fn negative_numbers_format_with_sign() {
    let mut table = TableBuilder::new()
        .field("deltas", DisplayKind::Number)
        .build();
    assert_eq!(&table.display_row(vec![Value::Int(-42)]), "   -42");
}
