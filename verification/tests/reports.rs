use po_aggregator::bigticket::{build_bigticket, BigTicketSection};
use po_aggregator::combine::{build_combined, CombinedResult, CombinedRow};
use po_aggregator::sources::iherb_file_lines;
use po_aggregator::rules::{BIG_TICKET_THRESHOLD, MONEY_SCALE, QTY_SCALE};
use po_aggregator::table::{Missing, PoError, Table};

fn table(headers: &[&str], rows: &[&[&str]]) -> Table {
    Table {
        headers: headers.iter().map(|h| h.to_string()).collect(),
        rows: rows.iter().map(|r| r.iter().map(|c| c.to_string()).collect()).collect(),
    }
}

fn mapping() -> Table {
    table(
        &["Buyers Catalog or Stock Keeping #", "ASIN", "Product Description", "Pack?"],
        &[
            &["TOT1", "B1", "Green", ""],
            &["TOT2", "B2", "Black", "pack exists"],
            &["TOT3", "", "Herbal", ""],
            &["", "B9", "Nothing ordered", ""],
        ],
    )
}

fn amazon_po() -> Table {
    table(
        &["PO", "ASIN", "Title", "Quantity Requested", "Case Cost", "Expected date", "Ship to location"],
        &[
            &["A1", "B1", "Green Tea 12ct", "2", "10", "2024-01-02", "ABE2"],
            &["A1", "B2", "Black Tea Pack", "1", "100", "2024-01-02", "ABE2"],
            &["A2", "B5", "Unmapped Tea", "3", "1", "2024-01-05", "SMF3"],
            &["A2", "", "no asin", "50", "50", "", ""],
        ],
    )
}

fn iherb_po() -> Table {
    table(
        &[
            "PO Number",
            "Buyers Catalog or Stock Keeping #",
            "Product/Item Description",
            "Qty Ordered",
            "Unit Price",
            "Requested Delivery Date",
            "Ship To State",
        ],
        &[
            &["I1", "TOT1", "Green iHerb", "24", "1", "2024-02-01", "CA"],
            &["I1", "TOT2", "Black iHerb", "12", "2", "2024-02-01", ""],
            &["I1", "TOT3", "Herbal iHerb", "6", "1", "2024-02-01", ""],
            &["I2", "TOT7", "Unmapped iHerb", "12", "10", "2024-02-03", "WA"],
            &["I2", "nan", "skipped", "12", "10", "2024-02-03", ""],
        ],
    )
}

fn combined() -> CombinedResult {
    match build_combined(&vec![Ok(amazon_po())], &vec![Ok(iherb_po())], &Ok(mapping())) {
        Ok(r) => r,
        Err(e) => panic!("{}", e.message()),
    }
}

fn row<'a>(r: &'a CombinedResult, id: &str) -> &'a CombinedRow {
    r.rows.iter().find(|x| x.id == id).unwrap()
}

#[test]
fn combined_rows_ordered_by_total_cost() {
    let r = combined();
    let ids: Vec<&str> = r.rows.iter().map(|x| x.id.as_str()).collect();
    assert_eq!(ids, vec!["B2", "TOT7", "B1", "TOT3", "B5"]);
    for w in r.rows.windows(2) {
        assert!(w[0].total_cost >= w[1].total_cost);
    }
}

#[test]
fn combined_grand_total_is_sum_of_rows() {
    let r = combined();
    assert_eq!(r.grand_total, 297 * MONEY_SCALE);
    let sum: i128 = r.rows.iter().map(|x| x.total_cost).sum();
    assert_eq!(r.grand_total, sum);
}

#[test]
fn combined_mapped_row_merges_both_platforms() {
    let r = combined();
    let g = row(&r, "B1");
    assert_eq!(g.title, "Green");
    assert_eq!(g.amz_qty, Some(2 * QTY_SCALE));
    assert_eq!(g.amz_cost, Some(20 * MONEY_SCALE));
    assert_eq!(g.iherb_cases, Some(2 * QTY_SCALE));
    assert_eq!(g.iherb_cost, Some(24 * MONEY_SCALE));
    assert_eq!(g.total_cases, Some(4 * QTY_SCALE));
    assert_eq!(g.total_cost, 44 * MONEY_SCALE);
    assert!(!g.is_pack);
}

#[test]
fn combined_pack_rows_have_no_case_total() {
    let r = combined();
    let b = row(&r, "B2");
    assert!(b.is_pack);
    assert_eq!(b.total_cases, None);
    assert_eq!(b.amz_qty, Some(QTY_SCALE));
    assert_eq!(b.iherb_cases, Some(QTY_SCALE));
    assert_eq!(b.total_cost, 124 * MONEY_SCALE);
    for x in &r.rows {
        if x.is_pack {
            assert!(x.total_cases.is_none());
        }
    }
}

#[test]
fn combined_iherb_only_mapping_uses_sku_as_id() {
    let r = combined();
    let h = row(&r, "TOT3");
    assert_eq!(h.title, "Herbal");
    assert_eq!(h.amz_qty, None);
    assert_eq!(h.amz_cost, None);
    assert_eq!(h.iherb_cases, Some(QTY_SCALE / 2));
    assert_eq!(h.total_cases, Some(QTY_SCALE / 2));
    assert_eq!(h.total_cost, 6 * MONEY_SCALE);
}

#[test]
fn combined_unmapped_products_get_rows_of_their_own() {
    let r = combined();
    let a = row(&r, "B5");
    assert_eq!(a.title, "Unmapped Tea");
    assert_eq!(a.amz_qty, Some(3 * QTY_SCALE));
    assert_eq!(a.total_cases, Some(3 * QTY_SCALE));
    assert_eq!(a.iherb_cost, None);
    let i = row(&r, "TOT7");
    assert_eq!(i.title, "Unmapped iHerb");
    assert_eq!(i.iherb_cases, Some(QTY_SCALE));
    assert_eq!(i.iherb_cost, Some(120 * MONEY_SCALE));
    assert_eq!(i.amz_cost, None);
    assert!(r.rows.iter().all(|x| x.id != "nan" && x.id != "B9" && x.id != "TOT1" && x.id != "TOT2" && !x.id.is_empty()));
    assert_eq!(r.rows.len(), 5);
}

#[test]
fn combined_sums_over_several_files() {
    let r = build_combined(&vec![Ok(amazon_po()), Ok(amazon_po())], &vec![], &Ok(mapping())).ok().unwrap();
    let g = r.rows.iter().find(|x| x.id == "B1").unwrap();
    assert_eq!(g.amz_qty, Some(4 * QTY_SCALE));
    assert_eq!(g.iherb_cost, None);
    assert_eq!(r.grand_total, 246 * MONEY_SCALE);
}

#[test]
fn combined_errors_come_in_reading_order() {
    let bad_amazon = table(&["ASIN", "Title", "Case Cost"], &[]);
    let bad_iherb = table(&["Buyers Catalog or Stock Keeping #"], &[]);
    let r = build_combined(&vec![Ok(bad_amazon)], &vec![Ok(bad_iherb)], &Err(PoError::Load("Cannot open: x".to_string())));
    assert_eq!(r.err().unwrap().message(), "Cannot open: x");
    let bad_amazon = table(&["ASIN", "Title", "Case Cost"], &[]);
    let bad_iherb = table(&["Buyers Catalog or Stock Keeping #"], &[]);
    let r = build_combined(&vec![Ok(bad_amazon)], &vec![Ok(bad_iherb)], &Ok(mapping()));
    let e = r.err().unwrap();
    assert!(matches!(e, PoError::MissingColumn(Missing::Qty)));
    assert_eq!(e.message(), "Qty not found");
    let bad_iherb = table(&["Buyers Catalog or Stock Keeping #"], &[]);
    let r = build_combined(&vec![Ok(amazon_po())], &vec![Ok(bad_iherb)], &Ok(mapping()));
    assert_eq!(r.err().unwrap().message(), "Title not found");
    let r = build_combined(&vec![Ok(amazon_po()), Err(PoError::Load("Sheet error".to_string()))], &vec![], &Ok(mapping()));
    assert_eq!(r.err().unwrap().message(), "Sheet error");
    let bad_map = table(&["ASIN"], &[]);
    let r = build_combined(&vec![], &vec![], &Ok(bad_map));
    assert_eq!(r.err().unwrap().message(), "SKU not found");
}

fn bt_mapping() -> Table {
    table(
        &["Buyers Catalog or Stock Keeping #", "ASIN", "Product Description"],
        &[&["TOT1", "B1", "Green"], &["TOT2", "", "Herbal"], &["", "B3", "Small"]],
    )
}

fn bt_amazon() -> Table {
    table(
        &["PO", "ASIN", "Quantity Requested", "Case Cost", "Expected date", "Ship to location"],
        &[
            &["A1", "B1", "10", "150", "2024-01-01", "ABE2"],
            &["A2", "B1", "2", "100", "2024-01-09", "SMF3"],
            &["A3", "B4", "30", "100", "2024-01-10", "TPA1"],
            &["A3", "B3", "1", "10", "2024-01-10", "TPA1"],
            &["A4", "", "100", "100", "", ""],
        ],
    )
}

fn bt_iherb() -> Table {
    table(
        &["PO Number", "Buyers Catalog or Stock Keeping #", "Qty Ordered", "Unit Price", "Requested Delivery Date", "Ship To State"],
        &[
            &["I1", "TOT1", "24", "25", "2024-02-01", "CA"],
            &["I1", "TOT2", "12", "10", "2024-02-01", ""],
            &["I2", "TOT5", "12", "500", "2024-02-03", "nan"],
            &["I2", "TOT5", "1", "1", "2024-02-04", "WA"],
        ],
    )
}

fn breakdown() -> Vec<BigTicketSection> {
    match build_bigticket(&vec![Ok(bt_amazon())], &vec![Ok(bt_iherb())], &Ok(bt_mapping())) {
        Ok(s) => s,
        Err(e) => panic!("{}", e.message()),
    }
}

#[test]
fn bigticket_keeps_products_over_threshold_in_order() {
    let secs = breakdown();
    let ids: Vec<&str> = secs.iter().map(|s| s.id.as_str()).collect();
    assert_eq!(ids, vec!["TOT5", "B4", "B1"]);
    for s in &secs {
        assert!(s.combined_total >= BIG_TICKET_THRESHOLD);
    }
    for w in secs.windows(2) {
        assert!(w[0].combined_total >= w[1].combined_total);
    }
}

#[test]
fn bigticket_mapped_section_combines_both_platforms() {
    let secs = breakdown();
    let g = secs.iter().find(|s| s.id == "B1").unwrap();
    assert_eq!(g.name, "Green");
    assert_eq!(g.combined_total, 2300 * MONEY_SCALE);
    assert_eq!(g.amz_rows.len(), 2);
    assert_eq!(g.amz_rows[0].po, "A1");
    assert_eq!(g.amz_rows[0].date, "2024-01-01");
    assert_eq!(g.amz_rows[0].ship_to, "ABE2");
    assert_eq!(g.amz_rows[0].qty, 10 * QTY_SCALE);
    assert_eq!(g.amz_rows[0].total, 1500 * MONEY_SCALE);
    assert_eq!(g.amz_rows[1].po, "A2");
    assert_eq!(g.iherb_rows.len(), 1);
    assert_eq!(g.iherb_rows[0].po, "I1");
    assert_eq!(g.iherb_rows[0].ship_to, "CA");
    assert_eq!(g.iherb_rows[0].qty, 2 * QTY_SCALE);
    assert_eq!(g.iherb_rows[0].total, 600 * MONEY_SCALE);
}

#[test]
fn bigticket_unmapped_sections_are_named_by_their_id() {
    let secs = breakdown();
    let a = secs.iter().find(|s| s.id == "B4").unwrap();
    assert_eq!(a.name, "B4");
    assert_eq!(a.combined_total, 3000 * MONEY_SCALE);
    assert!(a.iherb_rows.is_empty());
    let i = secs.iter().find(|s| s.id == "TOT5").unwrap();
    assert_eq!(i.name, "TOT5");
    assert!(i.amz_rows.is_empty());
    assert_eq!(i.combined_total, 6001 * MONEY_SCALE);
}

#[test]
fn bigticket_ship_to_state_is_filled_per_po() {
    let secs = breakdown();
    let i = secs.iter().find(|s| s.id == "TOT5").unwrap();
    assert_eq!(i.iherb_rows.len(), 2);
    assert_eq!(i.iherb_rows[0].ship_to, "");
    assert_eq!(i.iherb_rows[1].ship_to, "WA");
    assert_eq!(i.iherb_rows[0].date, "2024-02-03");
}

#[test]
fn bigticket_ship_to_state_is_forward_filled_within_each_po() {
    let ih = table(
        &["PO Number", "Buyers Catalog or Stock Keeping #", "Qty Ordered", "Unit Price", "Ship To State"],
        &[
            &["P1", "TOT8", "1", "1000", "OR"],
            &["P2", "TOT8", "1", "1000", "NV"],
            &["P1", "TOT8", "1", "1000", ""],
            &["P1", "TOT8", "1", "1000", "nan"],
            &["P1", "TOT8", "1", "1000", "ID"],
            &["P2", "TOT8", "1", "1000", ""],
        ],
    );
    let secs = build_bigticket(&vec![], &vec![Ok(ih)], &Ok(bt_mapping())).ok().unwrap();
    let states: Vec<&str> = secs[0].iherb_rows.iter().map(|r| r.ship_to.as_str()).collect();
    assert_eq!(states, vec!["OR", "NV", "OR", "OR", "ID", "NV"]);
}

#[test]
fn large_and_precise_figures_are_exact() {
    let amz = table(&["ASIN", "Title", "Quantity Requested", "Case Cost"], &[&["B9", "t", "300000", "1.23456"]]);
    let r = build_combined(&vec![Ok(amz)], &vec![], &Ok(mapping())).ok().unwrap();
    assert_eq!(r.rows[0].amz_qty, Some(300_000 * QTY_SCALE));
    assert_eq!(r.rows[0].total_cost, 370_368 * MONEY_SCALE);
}

#[test]
fn figures_beyond_the_bound_are_too_large() {
    let amz = table(&["ASIN", "Title", "Quantity Requested", "Case Cost"], &[&["B9", "t", "1e20", "1e20"]]);
    assert!(matches!(build_combined(&vec![Ok(amz)], &vec![], &Ok(mapping())), Err(PoError::TotalTooLarge)));
    let amz = table(&["ASIN", "Quantity Requested", "Case Cost"], &[&["B9", "0", "1e60"]]);
    assert!(build_bigticket(&vec![Ok(amz)], &vec![], &Ok(bt_mapping())).is_ok());
}

#[test]
fn bigticket_mapped_products_below_threshold_are_left_out() {
    let secs = breakdown();
    assert!(secs.iter().all(|s| s.id != "TOT2" && s.id != "B3" && !s.id.is_empty()));
}

#[test]
fn bigticket_threshold_is_inclusive() {
    let amz = table(&["ASIN", "Quantity Requested", "Case Cost"], &[&["B1", "20", "100"], &["B2", "1", "1999.99"]]);
    let secs = build_bigticket(&vec![Ok(amz)], &vec![], &Ok(bt_mapping())).ok().unwrap();
    assert_eq!(secs.len(), 1);
    assert_eq!(secs[0].id, "B1");
    assert_eq!(secs[0].combined_total, BIG_TICKET_THRESHOLD);
    assert_eq!(secs[0].amz_rows[0].po, "");
    assert_eq!(secs[0].amz_rows[0].ship_to, "");
}

#[test]
fn bigticket_errors() {
    let amz = table(&["ASIN", "Case Cost"], &[]);
    let e = build_bigticket(&vec![Ok(amz)], &vec![], &Ok(bt_mapping())).err().unwrap();
    assert!(matches!(e, PoError::MissingColumn(Missing::Qty)));
    let ih = table(&["Buyers Catalog or Stock Keeping #", "Qty Ordered"], &[]);
    let e = build_bigticket(&vec![], &vec![Ok(ih)], &Ok(bt_mapping())).err().unwrap();
    assert_eq!(e.message(), "Unit Price not found");
    let e = build_bigticket(&vec![], &vec![Err(PoError::Csv("bad csv".to_string()))], &Ok(bt_mapping())).err().unwrap();
    assert_eq!(e.message(), "bad csv");
    let e = build_bigticket(&vec![], &vec![], &Err(PoError::Load("no mapping".to_string()))).err().unwrap();
    assert_eq!(e.message(), "no mapping");
}

#[test]
fn combined_rows_add_up() {
    let r = combined();
    for x in &r.rows {
        assert_eq!(x.total_cost, x.amz_cost.unwrap_or(0) + x.iherb_cost.unwrap_or(0));
        if x.is_pack {
            assert_eq!(x.total_cases, None);
        } else {
            assert_eq!(x.total_cases, Some(x.amz_qty.unwrap_or(0) + x.iherb_cases.unwrap_or(0)));
        }
    }
}

#[test]
fn bigticket_every_big_product_is_shown() {
    let secs = breakdown();
    let totals: Vec<(String, i128)> = secs.iter().map(|s| (s.id.clone(), s.combined_total)).collect();
    assert!(totals.contains(&("B1".to_string(), 2300 * MONEY_SCALE)));
    assert!(totals.contains(&("B4".to_string(), 3000 * MONEY_SCALE)));
    assert!(totals.contains(&("TOT5".to_string(), 6001 * MONEY_SCALE)));
}

#[test]
fn combined_is_deterministic() {
    let a = combined();
    let b = combined();
    assert_eq!(a.grand_total, b.grand_total);
    let ia: Vec<(String, i128)> = a.rows.iter().map(|x| (x.id.clone(), x.total_cost)).collect();
    let ib: Vec<(String, i128)> = b.rows.iter().map(|x| (x.id.clone(), x.total_cost)).collect();
    assert_eq!(ia, ib);
    let s1: Vec<String> = breakdown().into_iter().map(|s| s.id).collect();
    let s2: Vec<String> = breakdown().into_iter().map(|s| s.id).collect();
    assert_eq!(s1, s2);
}

#[test]
fn iherb_files_add_up_per_sku() {
    let second = table(
        &["Buyers Catalog or Stock Keeping #", "Product/Item Description", "Qty Ordered", "Unit Price"],
        &[&["TOT1", "Green later", "12", "1"], &["TOT9", "New", "6", "2"]],
    );
    let both = iherb_file_lines(&vec![Ok(iherb_po()), Ok(second)]).ok().unwrap().unwrap();
    let tot1: Vec<_> = both.iter().filter(|l| l.key == "TOT1").collect();
    assert_eq!(tot1.len(), 2);
    assert_eq!(tot1[0].title, "Green iHerb");
    let cases: i128 = tot1.iter().map(|l| l.cases as i128).sum();
    assert_eq!(cases, 3 * QTY_SCALE);
    let total: i128 = tot1.iter().map(|l| l.total as i128).sum();
    assert_eq!(total, 36 * MONEY_SCALE);
    assert!(both.iter().any(|l| l.key == "TOT9"));
    assert_eq!(both.len(), 6);
}
