use po_aggregator::aggregate::{summarize_amazon, AggRow};
use po_aggregator::bigticket::{BigTicketSection, PoDetailRow};
use po_aggregator::combine::{build_combined, CombinedRow};
use po_aggregator::rules::{MONEY_SCALE, QTY_SCALE};
use po_aggregator::sheet::{aggregator_sheet, bigticket_height, bigticket_sheet, checked_sum, combined_sheet, CellValue, CellWrite, Paper, SheetPlan, Style};
use po_aggregator::table::{PoError, Table};

fn agg(id: &str, qty: i128, cases: Option<i128>, total: i128) -> AggRow {
    AggRow { id: id.to_string(), title: format!("{id} title"), qty_ordered: qty, case_qty: cases, total_cost: total }
}

fn find(p: &SheetPlan, row: u32, col: u16) -> &CellWrite {
    p.cells.iter().find(|c| c.row == row && c.col == col).unwrap()
}

fn text(c: &CellWrite) -> &str {
    match &c.value {
        CellValue::Text(s) => s.as_str(),
        _ => panic!("not text"),
    }
}

fn qty(c: &CellWrite) -> i128 {
    match c.value {
        CellValue::Quantity(q) => q,
        _ => panic!("not a quantity"),
    }
}

fn money(c: &CellWrite) -> i128 {
    match c.value {
        CellValue::Money(m) => m,
        _ => panic!("not money"),
    }
}

#[test]
fn iherb_summary_sheet_layout() {
    let rows = vec![agg("TOT1", 24 * QTY_SCALE, Some(2 * QTY_SCALE), 30 * MONEY_SCALE), agg("TOT2", 6 * QTY_SCALE, None, 5 * MONEY_SCALE)];
    let p = aggregator_sheet(&rows, "iHerb").ok().unwrap();
    assert_eq!(p.name, "iHerb PO Summary");
    assert!(!p.borders);
    assert!(p.paper == Paper::Default);
    assert_eq!(p.widths, vec![(0, 18), (1, 44), (2, 14), (3, 16)]);
    assert_eq!(p.cells.len(), 4 + 4 * 2 + 3);
    assert_eq!(text(find(&p, 0, 0)), "SKU");
    assert_eq!(text(find(&p, 0, 2)), "Case Qty");
    assert!(matches!(find(&p, 0, 0).style, Style::Heading));
    assert_eq!(text(find(&p, 1, 0)), "TOT1");
    assert_eq!(text(find(&p, 1, 1)), "TOT1 title");
    assert_eq!(qty(find(&p, 1, 2)), 2 * QTY_SCALE);
    assert!(matches!(find(&p, 1, 2).style, Style::Number));
    assert_eq!(qty(find(&p, 2, 2)), 0);
    assert_eq!(money(find(&p, 2, 3)), 5 * MONEY_SCALE);
    assert_eq!(text(find(&p, 3, 0)), "GRAND TOTAL");
    assert_eq!(qty(find(&p, 3, 2)), 2 * QTY_SCALE);
    assert!(matches!(find(&p, 3, 2).style, Style::NumberBold));
    assert_eq!(money(find(&p, 3, 3)), 35 * MONEY_SCALE);
    assert!(matches!(find(&p, 3, 3).style, Style::MoneyBold));
}

#[test]
fn amazon_summary_sheet_uses_quantities_ordered() {
    let rows = vec![agg("B1", 3 * QTY_SCALE, None, 9 * MONEY_SCALE), agg("B2", 2 * QTY_SCALE, None, MONEY_SCALE)];
    let p = aggregator_sheet(&rows, "Amazon").ok().unwrap();
    assert_eq!(p.name, "Amazon PO Summary");
    assert_eq!(text(find(&p, 0, 0)), "ASIN");
    assert_eq!(text(find(&p, 0, 2)), "Qty Ordered");
    assert_eq!(qty(find(&p, 1, 2)), 3 * QTY_SCALE);
    assert!(matches!(find(&p, 1, 2).style, Style::Whole));
    assert_eq!(qty(find(&p, 3, 2)), 5 * QTY_SCALE);
    assert!(matches!(find(&p, 3, 2).style, Style::WholeBold));
    assert_eq!(money(find(&p, 3, 3)), 10 * MONEY_SCALE);
}

#[test]
fn summary_sheet_of_no_rows_has_zero_totals() {
    let p = aggregator_sheet(&vec![], "Amazon").ok().unwrap();
    assert_eq!(text(find(&p, 1, 0)), "GRAND TOTAL");
    assert_eq!(qty(find(&p, 1, 2)), 0);
    assert_eq!(money(find(&p, 1, 3)), 0);
}

#[test]
fn summary_sheet_total_too_large() {
    let rows = vec![agg("A", 0, None, i128::MAX), agg("B", 0, None, 1)];
    assert!(matches!(aggregator_sheet(&rows, "Amazon"), Err(PoError::TotalTooLarge)));
}

#[test]
fn checked_sum_values() {
    assert_eq!(checked_sum(&vec![]), Some(0));
    assert_eq!(checked_sum(&vec![1, -5, 10]), Some(6));
    assert_eq!(checked_sum(&vec![i128::MAX, 1, -1]), None);
    assert_eq!(checked_sum(&vec![i128::MIN, -1]), None);
}

fn crow(id: &str, amz: Option<(i128, i128)>, ih: Option<(i128, i128)>, pack: bool) -> CombinedRow {
    let tc = amz.map(|a| a.0).unwrap_or(0) + ih.map(|i| i.0).unwrap_or(0);
    let tt = amz.map(|a| a.1).unwrap_or(0) + ih.map(|i| i.1).unwrap_or(0);
    CombinedRow {
        id: id.to_string(),
        title: format!("{id} title"),
        amz_qty: amz.map(|a| a.0),
        amz_cost: amz.map(|a| a.1),
        iherb_cases: ih.map(|i| i.0),
        iherb_cost: ih.map(|i| i.1),
        total_cases: if pack { None } else { Some(tc) },
        total_cost: tt,
        is_pack: pack,
    }
}

#[test]
fn combined_sheet_layout() {
    let rows = vec![
        crow("B1", Some((2 * QTY_SCALE, 20 * MONEY_SCALE)), Some((QTY_SCALE, 4 * MONEY_SCALE)), true),
        crow("TOT7", None, Some((3 * QTY_SCALE, 7 * MONEY_SCALE)), false),
    ];
    let p = combined_sheet(&rows).ok().unwrap();
    assert_eq!(p.name, "Combined PO Summary");
    assert!(p.borders);
    assert!(p.paper == Paper::LegalLandscape);
    assert_eq!(p.widths.len(), 8);
    assert_eq!(p.widths[6], (6, 22));
    assert_eq!(text(find(&p, 0, 6)), "Total Cases AMZ+iHerb");
    assert!(matches!(find(&p, 1, 0).style, Style::Grey));
    assert!(matches!(find(&p, 1, 1).style, Style::Grey));
    assert!(matches!(find(&p, 2, 0).style, Style::Plain));
    assert!(p.cells.iter().all(|c| !(c.row == 1 && c.col == 6)));
    assert!(p.cells.iter().all(|c| !(c.row == 2 && (c.col == 2 || c.col == 3))));
    assert_eq!(money(find(&p, 1, 7)), 24 * MONEY_SCALE);
    assert_eq!(text(find(&p, 3, 0)), "GRAND TOTAL");
    assert_eq!(qty(find(&p, 3, 2)), 2 * QTY_SCALE);
    assert_eq!(money(find(&p, 3, 3)), 20 * MONEY_SCALE);
    assert_eq!(qty(find(&p, 3, 4)), 4 * QTY_SCALE);
    assert_eq!(money(find(&p, 3, 5)), 11 * MONEY_SCALE);
    assert_eq!(qty(find(&p, 3, 6)), 3 * QTY_SCALE);
    assert_eq!(money(find(&p, 3, 7)), 31 * MONEY_SCALE);
    assert_eq!(p.cells.len(), 8 + 8 + 5 + 7);
}

#[test]
fn combined_sheet_total_too_large() {
    let rows = vec![crow("A", Some((i128::MAX, 0)), None, true), crow("B", Some((1, 0)), None, true)];
    assert!(matches!(combined_sheet(&rows), Err(PoError::TotalTooLarge)));
}

fn detail(po: &str, q: i128, t: i128) -> PoDetailRow {
    PoDetailRow { po: po.to_string(), date: "2024-01-01".to_string(), ship_to: "CA".to_string(), qty: q, total: t }
}

#[test]
fn bigticket_sheet_layout() {
    let secs = vec![
        BigTicketSection {
            id: "B1".to_string(),
            name: "Green".to_string(),
            combined_total: 2500 * MONEY_SCALE,
            amz_rows: vec![detail("A1", QTY_SCALE, 2000 * MONEY_SCALE)],
            iherb_rows: vec![detail("I1", QTY_SCALE, 300 * MONEY_SCALE), detail("I2", QTY_SCALE, 200 * MONEY_SCALE)],
        },
        BigTicketSection { id: "B4".to_string(), name: "B4".to_string(), combined_total: 2100 * MONEY_SCALE, amz_rows: vec![], iherb_rows: vec![] },
    ];
    let p = bigticket_sheet(&secs);
    assert_eq!(p.name, "Big Ticket Breakdown");
    assert!(p.borders);
    assert!(p.paper == Paper::Default);
    assert_eq!(p.widths.len(), 8);
    assert_eq!(text(find(&p, 0, 0)), "B1   Green");
    assert_eq!(text(find(&p, 0, 6)), "Combined Total");
    assert_eq!(money(find(&p, 0, 7)), 2500 * MONEY_SCALE);
    assert_eq!(text(find(&p, 1, 2)), "Amazon");
    assert!(matches!(find(&p, 1, 2).style, Style::Subheading));
    assert_eq!(text(find(&p, 1, 4)), "Expected Date");
    assert_eq!(text(find(&p, 2, 2)), "Amazon");
    assert_eq!(text(find(&p, 2, 3)), "A1");
    assert_eq!(money(find(&p, 2, 7)), 2000 * MONEY_SCALE);
    assert_eq!(text(find(&p, 3, 2)), "iHerb");
    assert_eq!(text(find(&p, 3, 5)), "Ship To State");
    assert_eq!(text(find(&p, 4, 3)), "I1");
    assert_eq!(text(find(&p, 5, 3)), "I2");
    assert_eq!(qty(find(&p, 5, 6)), QTY_SCALE);
    assert_eq!(text(find(&p, 7, 0)), "B4   B4");
    assert!(p.cells.iter().all(|c| c.row != 6 && c.row < 8));
    assert_eq!(bigticket_height(&secs), Some(9));
    assert_eq!(bigticket_height(&vec![]), Some(0));
}

#[test]
fn saved_summary_shows_its_grand_total() {
    let t = Table {
        headers: vec!["ASIN".to_string(), "Title".to_string(), "Quantity Requested".to_string(), "Case Cost".to_string()],
        rows: vec![
            vec!["B1".to_string(), "x".to_string(), "3".to_string(), "2.5".to_string()],
            vec!["B2".to_string(), "y".to_string(), "1".to_string(), "4".to_string()],
        ],
    };
    let res = summarize_amazon(&t).ok().unwrap();
    let p = aggregator_sheet(&res.rows, "Amazon").ok().unwrap();
    let last = p.cells.last().unwrap();
    assert_eq!(last.row, 3);
    assert_eq!(last.col, 3);
    assert_eq!(money(last), res.grand_total);
    assert_eq!(res.grand_total, 1150 * MONEY_SCALE / 100);
}

#[test]
fn saved_combined_summary_shows_its_grand_total() {
    let map = Table {
        headers: vec!["Buyers Catalog or Stock Keeping #".to_string(), "ASIN".to_string(), "Product Description".to_string()],
        rows: vec![vec!["TOT1".to_string(), "B1".to_string(), "Green".to_string()]],
    };
    let amz = Table {
        headers: vec!["ASIN".to_string(), "Title".to_string(), "Quantity Requested".to_string(), "Case Cost".to_string()],
        rows: vec![vec!["B1".to_string(), "x".to_string(), "2".to_string(), "3".to_string()], vec!["B7".to_string(), "z".to_string(), "1".to_string(), "1".to_string()]],
    };
    let res = build_combined(&vec![Ok(amz)], &vec![], &Ok(map)).ok().unwrap();
    let p = combined_sheet(&res.rows).ok().unwrap();
    let last = p.cells.last().unwrap();
    assert_eq!(last.col, 7);
    assert_eq!(money(last), res.grand_total);
    assert_eq!(res.grand_total, 7 * MONEY_SCALE);
}
