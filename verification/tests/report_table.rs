use ledr::reports::table::Table;

#[test]
fn report_table_pads_and_separates() {
    let mut table = Table::new(2);
    table.add_header(vec!["Account", "Balance"]);
    table.add_separator();
    table.add_row(vec!["Cash", "10.00"]);
    table.add_row(vec!["Bank", "1,250.00"]);
    table.add_partial_separator(vec![1]);
    table.right_align(vec![1]);
    assert_eq!(
        table.render(),
        "\nAccount | Balance \n------------------\nCash         10.00\nBank      1,250.00\n          --------\n"
    );
}

#[test]
fn report_table_centers_short_headers() {
    let mut table = Table::new(1);
    table.add_header(vec!["ab"]);
    table.add_row(vec!["abcdef"]);
    assert_eq!(table.render(), "\n  ab  \nabcdef\n");
}
