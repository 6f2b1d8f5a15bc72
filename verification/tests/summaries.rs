use po_aggregator::aggregate::{summarize_amazon, summarize_iherb, ProcessResult};
use po_aggregator::rules::{MONEY_SCALE, QTY_SCALE};
use po_aggregator::table::{Missing, PoError, Table};

fn s(x: &str) -> String {
    x.to_string()
}

fn table(headers: &[&str], rows: &[&[&str]]) -> Table {
    Table {
        headers: headers.iter().map(|h| s(h)).collect(),
        rows: rows.iter().map(|r| r.iter().map(|c| s(c)).collect()).collect(),
    }
}

fn amazon_table(rows: &[&[&str]]) -> Table {
    table(&["PO", "ASIN", "Title", "Quantity Requested", "Case Cost"], rows)
}

fn iherb_table(rows: &[&[&str]]) -> Table {
    table(
        &["PO Number", "Buyers Catalog or Stock Keeping #", "Product/Item Description", "Qty Ordered", "Unit Price"],
        rows,
    )
}

fn ok(r: Result<ProcessResult, PoError>) -> ProcessResult {
    match r {
        Ok(res) => res,
        Err(e) => panic!("unexpected error: {}", e.message()),
    }
}

#[test]
fn amazon_groups_by_asin_and_multiplies_case_cost() {
    let t = amazon_table(&[
        &["P1", "B01", "Green Tea", "3", "10.50"],
        &["P2", "B02", "Black Tea", "1", "5"],
        &["P3", "B01", "Green Tea (dup)", "2", "10.50"],
    ]);
    let res = ok(summarize_amazon(&t));
    assert_eq!(res.sku_count, 2);
    assert_eq!(res.rows.len(), 2);
    let first = &res.rows[0];
    assert_eq!(first.id, "B01");
    assert_eq!(first.title, "Green Tea");
    assert_eq!(first.qty_ordered, 5 * QTY_SCALE);
    assert!(first.case_qty.is_none());
    assert_eq!(first.total_cost, 5250 * MONEY_SCALE / 100);
    let second = &res.rows[1];
    assert_eq!(second.id, "B02");
    assert_eq!(second.total_cost, 5 * MONEY_SCALE);
    assert_eq!(res.grand_total, 5750 * MONEY_SCALE / 100);
    assert_eq!(res.total_cases, 6 * QTY_SCALE);
}

#[test]
fn amazon_rows_are_sorted_by_decreasing_total_with_ties_in_order() {
    let t = amazon_table(&[
        &["P", "A", "a", "1", "1"],
        &["P", "B", "b", "1", "3"],
        &["P", "C", "c", "1", "1"],
        &["P", "D", "d", "1", "2"],
    ]);
    let res = ok(summarize_amazon(&t));
    let ids: Vec<&str> = res.rows.iter().map(|r| r.id.as_str()).collect();
    assert_eq!(ids, vec!["B", "D", "A", "C"]);
    for w in res.rows.windows(2) {
        assert!(w[0].total_cost >= w[1].total_cost);
    }
}

#[test]
fn amazon_grand_total_is_sum_of_row_totals() {
    let t = amazon_table(&[
        &["P", "A", "a", "4", "2.25"],
        &["P", "B", "b", "7", "1.10"],
        &["P", "A", "a", "1", "3"],
    ]);
    let res = ok(summarize_amazon(&t));
    let sum: i128 = res.rows.iter().map(|r| r.total_cost).sum();
    assert_eq!(res.grand_total, sum);
    let qty: i128 = res.rows.iter().map(|r| r.qty_ordered).sum();
    assert_eq!(res.total_cases, qty);
}

#[test]
fn amazon_unreadable_numbers_count_as_zero() {
    let t = amazon_table(&[&["P", "A", "a", "n/a", "2"], &["P", "B", "b", "2", ""]]);
    let res = ok(summarize_amazon(&t));
    assert_eq!(res.grand_total, 0);
    assert_eq!(res.total_cases, 2 * QTY_SCALE);
}

#[test]
fn amazon_columns_are_found_ignoring_case_and_spaces() {
    let t = table(&[" asin ", "TITLE", "quantity requested", "Case cost"], &[&["A", "t", "2", "3"]]);
    let res = ok(summarize_amazon(&t));
    assert_eq!(res.grand_total, 6 * MONEY_SCALE);
}

#[test]
fn amazon_missing_columns_are_reported_in_order() {
    let t = table(&["Title", "Quantity Requested", "Case Cost"], &[]);
    assert!(matches!(summarize_amazon(&t), Err(PoError::MissingColumn(Missing::Asin))));
    let t = table(&["ASIN", "Quantity Requested"], &[]);
    let e = summarize_amazon(&t).err().unwrap();
    assert!(matches!(e, PoError::MissingColumn(Missing::Title)));
    assert_eq!(e.message(), "Title not found");
    let t = table(&["ASIN", "Title", "Case Cost"], &[]);
    let e = summarize_amazon(&t).err().unwrap();
    assert_eq!(e.message(), "Quantity Requested not found");
    let t = table(&["ASIN", "Title", "Quantity Requested"], &[]);
    let e = summarize_amazon(&t).err().unwrap();
    assert_eq!(e.message(), "Case Cost not found");
}

#[test]
fn amazon_empty_sheet_gives_empty_summary() {
    let t = amazon_table(&[]);
    let res = ok(summarize_amazon(&t));
    assert_eq!(res.rows.len(), 0);
    assert_eq!(res.sku_count, 0);
    assert_eq!(res.grand_total, 0);
    assert_eq!(res.total_cases, 0);
}

#[test]
fn iherb_total_is_units_times_unit_price() {
    let t = iherb_table(&[
        &["1", "TOT00001", "Oolong", "24", "3.50"],
        &["1", "TOT00001", "Oolong", "12", "3.50"],
    ]);
    let res = ok(summarize_iherb(&t));
    assert_eq!(res.rows.len(), 1);
    let r = &res.rows[0];
    assert_eq!(r.id, "TOT00001");
    assert_eq!(r.title, "Oolong");
    assert_eq!(r.qty_ordered, 36 * QTY_SCALE);
    assert_eq!(r.case_qty, Some(3 * QTY_SCALE));
    assert_eq!(r.total_cost, 126 * MONEY_SCALE);
    assert_eq!(res.grand_total, 126 * MONEY_SCALE);
    assert_eq!(res.total_cases, 3 * QTY_SCALE);
}

#[test]
fn iherb_premier_skus_have_six_units_per_case() {
    let t = iherb_table(&[
        &["1", "TOT91451", "Premier", "24", "1"],
        &["1", "TOT91452", "Plain", "24", "1"],
    ]);
    let res = ok(summarize_iherb(&t));
    let premier = res.rows.iter().find(|r| r.id == "TOT91451").unwrap();
    let plain = res.rows.iter().find(|r| r.id == "TOT91452").unwrap();
    assert_eq!(premier.case_qty, Some(4 * QTY_SCALE));
    assert_eq!(plain.case_qty, Some(2 * QTY_SCALE));
    assert_eq!(res.total_cases, 6 * QTY_SCALE);
}

#[test]
fn iherb_fractional_cases_are_exact() {
    let t = iherb_table(&[&["1", "TOT1", "x", "5", "2"]]);
    let res = ok(summarize_iherb(&t));
    assert_eq!(res.rows[0].case_qty, Some(5 * QTY_SCALE / 12));
    assert_eq!(5 * QTY_SCALE % 12, 0);
}

#[test]
fn iherb_rows_without_sku_or_with_nan_are_skipped() {
    let t = iherb_table(&[
        &["1", "", "blank", "10", "1"],
        &["1", "nan", "nan row", "10", "1"],
        &["1", "TOT2", "kept", "1", "1"],
    ]);
    let res = ok(summarize_iherb(&t));
    assert_eq!(res.sku_count, 1);
    assert_eq!(res.rows[0].id, "TOT2");
    assert_eq!(res.grand_total, MONEY_SCALE);
}

#[test]
fn iherb_short_rows_read_as_empty_cells() {
    let t = iherb_table(&[&["1", "TOT3"], &["1"]]);
    let res = ok(summarize_iherb(&t));
    assert_eq!(res.rows.len(), 1);
    assert_eq!(res.rows[0].title, "");
    assert_eq!(res.rows[0].total_cost, 0);
}

#[test]
fn iherb_missing_columns_are_reported() {
    let t = table(&["Product/Item Description", "Qty Ordered", "Unit Price"], &[]);
    assert_eq!(summarize_iherb(&t).err().unwrap().message(), "SKU not found");
    let t = table(&["Buyers Catalog or Stock Keeping #", "Qty Ordered", "Unit Price"], &[]);
    assert_eq!(summarize_iherb(&t).err().unwrap().message(), "Title not found");
    let t = table(&["Buyers Catalog or Stock Keeping #", "Product/Item Description", "Unit Price"], &[]);
    assert_eq!(summarize_iherb(&t).err().unwrap().message(), "Qty Ordered not found");
    let t = table(&["Buyers Catalog or Stock Keeping #", "Product/Item Description", "Qty Ordered"], &[]);
    assert_eq!(summarize_iherb(&t).err().unwrap().message(), "Unit Price not found");
}

#[test]
fn iherb_total_cases_is_sum_of_row_cases() {
    let t = iherb_table(&[
        &["1", "TOT91451", "p", "9", "1"],
        &["1", "TOT8", "q", "7", "2"],
        &["2", "TOT91451", "p", "3", "1"],
    ]);
    let res = ok(summarize_iherb(&t));
    let sum: i128 = res.rows.iter().filter_map(|r| r.case_qty).sum();
    assert_eq!(res.total_cases, sum);
    assert_eq!(res.total_cases, 2 * QTY_SCALE + 7 * QTY_SCALE / 12);
    let total: i128 = res.rows.iter().map(|r| r.total_cost).sum();
    assert_eq!(res.grand_total, total);
    assert_eq!(res.grand_total, 26 * MONEY_SCALE);
}

#[test]
fn amazon_short_rows_read_as_empty_cells() {
    let t = amazon_table(&[&["P", "B1", "x", "2", "3"], &["P", "B1"]]);
    let res = ok(summarize_amazon(&t));
    assert_eq!(res.rows.len(), 1);
    assert_eq!(res.rows[0].qty_ordered, 2 * QTY_SCALE);
    assert_eq!(res.grand_total, 6 * MONEY_SCALE);
}

#[test]
fn amazon_exponent_cells_are_read() {
    let t = amazon_table(&[&["P", "B1", "x", "1e1", "2.5E-1"]]);
    let res = ok(summarize_amazon(&t));
    assert_eq!(res.rows[0].qty_ordered, 10 * QTY_SCALE);
    assert_eq!(res.grand_total, 25 * MONEY_SCALE / 10);
}
