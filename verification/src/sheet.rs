//! Layouts of the three Excel reports: which cell holds what, in which style.
use crate::aggregate::AggRow;
use crate::bigticket::{BigTicketSection, PoDetailRow};
use crate::combine::{seq_sum, sums_fit, CombinedRow};
use crate::order::ints;
use crate::table::PoError;
use vstd::prelude::*;
use vstd::string::StringExecFns;

verus! {

/// How a cell is formatted (all in Times New Roman 14pt).
pub enum Style {
    /// Bold text.
    Heading,
    /// Plain text.
    Plain,
    /// Plain text on a grey background (pack products).
    Grey,
    /// Bold underlined text.
    Subheading,
    /// A number with two decimals.
    Number,
    /// A bold number with two decimals.
    NumberBold,
    /// A whole number.
    Whole,
    /// A bold whole number.
    WholeBold,
    /// An amount in dollars.
    Money,
    /// A bold amount in dollars.
    MoneyBold,
}

/// What a cell holds: text, a quantity (in units of 1/1200000000) or money (in
/// units of 10^-16).
pub enum CellValue {
    Text(String),
    Quantity(i128),
    Money(i128),
}

/// One cell write of a sheet.
pub struct CellWrite {
    pub row: u32,
    pub col: u16,
    pub value: CellValue,
    pub style: Style,
}

/// The paper a sheet is printed on.
#[derive(PartialEq, Eq, Structural)]
pub enum Paper {
    /// The printer's default paper, upright.
    Default,
    /// Legal paper (8 1/2 x 14 in), landscape.
    LegalLandscape,
}

/// A sheet to write: its name, its column widths (column, width in characters),
/// its cells, whether every written cell has a thin black border, and its paper.
pub struct SheetPlan {
    pub name: String,
    pub widths: Vec<(u16, u32)>,
    pub cells: Vec<CellWrite>,
    pub borders: bool,
    pub paper: Paper,
}

pub enum ValueView {
    Text(Seq<char>),
    Quantity(int),
    Money(int),
}

pub struct CellView {
    pub row: int,
    pub col: int,
    pub value: ValueView,
    pub style: Style,
}

impl View for CellWrite {
    type V = CellView;

    open spec fn view(&self) -> CellView {
        CellView {
            row: self.row as int,
            col: self.col as int,
            value: match self.value {
                CellValue::Text(s) => ValueView::Text(s@),
                CellValue::Quantity(q) => ValueView::Quantity(q as int),
                CellValue::Money(m) => ValueView::Money(m as int),
            },
            style: self.style,
        }
    }
}

pub open spec fn cell_views(cs: Seq<CellWrite>) -> Seq<CellView> {
    cs.map_values(|c: CellWrite| c@)
}

pub open spec fn width_views(ws: Seq<(u16, u32)>) -> Seq<(int, int)> {
    ws.map_values(|w: (u16, u32)| (w.0 as int, w.1 as int))
}

pub open spec fn text_at(row: int, col: int, s: Seq<char>, style: Style) -> CellView {
    CellView { row, col, value: ValueView::Text(s), style }
}

pub open spec fn qty_at(row: int, col: int, q: int, style: Style) -> CellView {
    CellView { row, col, value: ValueView::Quantity(q), style }
}

pub open spec fn money_at(row: int, col: int, m: int, style: Style) -> CellView {
    CellView { row, col, value: ValueView::Money(m), style }
}

fn text_cell(row: u32, col: u16, s: String, style: Style) -> (r: CellWrite)
    ensures
        r@ == text_at(row as int, col as int, s@, style),
{
    CellWrite { row, col, value: CellValue::Text(s), style }
}

fn qty_cell(row: u32, col: u16, q: i128, style: Style) -> (r: CellWrite)
    ensures
        r@ == qty_at(row as int, col as int, q as int, style),
{
    CellWrite { row, col, value: CellValue::Quantity(q), style }
}

fn money_cell(row: u32, col: u16, m: i128, style: Style) -> (r: CellWrite)
    ensures
        r@ == money_at(row as int, col as int, m as int, style),
{
    CellWrite { row, col, value: CellValue::Money(m), style }
}

/// Sum of `vals`, or `None` when a running sum leaves 128 bits.
pub fn checked_sum(vals: &Vec<i128>) -> (r: Option<i128>)
    ensures
        match r {
            Some(t) => sums_fit(ints(vals@)) && t == seq_sum(ints(vals@)),
            None => !sums_fit(ints(vals@)),
        },
{
    let ghost v = ints(vals@);
    let mut total: i128 = 0;
    let mut i: usize = 0;
    assert(v.take(0) =~= Seq::<int>::empty());
    while i < vals.len()
        invariant
            v == ints(vals@),
            i <= vals@.len(),
            total == seq_sum(v.take(i as int)),
            forall|k: int| 0 <= k <= i ==> i128::MIN <= #[trigger] seq_sum(v.take(k)) <= i128::MAX,
        decreases vals@.len() - i,
    {
        assert(v.take(i + 1).drop_last() =~= v.take(i as int));
        match total.checked_add(vals[i]) {
            Some(t) => {
                total = t;
            },
            None => {
                assert(!(i128::MIN <= seq_sum(v.take(i + 1)) <= i128::MAX));
                return None;
            },
        }
        i = i + 1;
    }
    assert(v.take(vals@.len() as int) =~= v);
    Some(total)
}

pub open spec fn agg_header_cells(iherb: bool) -> Seq<CellView> {
    seq![
        text_at(0, 0, if iherb { "SKU"@ } else { "ASIN"@ }, Style::Heading),
        text_at(0, 1, "Title"@, Style::Heading),
        text_at(0, 2, if iherb { "Case Qty"@ } else { "Qty Ordered"@ }, Style::Heading),
        text_at(0, 3, "Total Cost"@, Style::Heading),
    ]
}

/// The quantity a summary row shows: its cases (zero when it has none) on the
/// iHerb sheet, its quantity ordered on the Amazon sheet.
pub open spec fn agg_qty_value(r: AggRow, iherb: bool) -> int {
    if iherb {
        match r.case_qty {
            Some(c) => c as int,
            None => 0,
        }
    } else {
        r.qty_ordered as int
    }
}

pub open spec fn agg_row_cells(r: AggRow, n: int, iherb: bool) -> Seq<CellView> {
    seq![
        text_at(n, 0, r.id@, Style::Plain),
        text_at(n, 1, r.title@, Style::Plain),
        qty_at(n, 2, agg_qty_value(r, iherb), if iherb { Style::Number } else { Style::Whole }),
        money_at(n, 3, r.total_cost as int, Style::Money),
    ]
}

/// The cells of the summary rows; row `i` of `rows` goes to sheet row `i + 1`.
pub open spec fn agg_body_cells(rows: Seq<AggRow>, iherb: bool) -> Seq<CellView>
    decreases rows.len(),
{
    if rows.len() == 0 {
        Seq::empty()
    } else {
        agg_body_cells(rows.drop_last(), iherb) + agg_row_cells(rows.last(), rows.len() as int, iherb)
    }
}

pub open spec fn agg_qty_values(rows: Seq<AggRow>, iherb: bool) -> Seq<int> {
    rows.map_values(|r: AggRow| agg_qty_value(r, iherb))
}

pub open spec fn agg_money_values(rows: Seq<AggRow>) -> Seq<int> {
    rows.map_values(|r: AggRow| r.total_cost as int)
}

pub open spec fn agg_widths() -> Seq<(int, int)> {
    seq![(0, 18), (1, 44), (2, 14), (3, 16)]
}

/// The PO summary sheet of `platform`: named "<platform> PO Summary", a header
/// row, a row per summary row, and a GRAND TOTAL row summing the quantity and
/// cost columns, without borders, on default paper; `TotalTooLarge` when a
/// running sum leaves 128 bits.
pub open spec fn aggregator_sheet_spec(rows: Seq<AggRow>, platform: Seq<char>, r: Result<SheetPlan, PoError>) -> bool {
    let iherb = platform == "iHerb"@;
    let last = rows.len() + 1int;
    if sums_fit(agg_qty_values(rows, iherb)) && sums_fit(agg_money_values(rows)) {
        r matches Ok(p) && p.name@ == platform + " PO Summary"@ && !p.borders && p.paper
            == Paper::Default && width_views(p.widths@)
            == agg_widths() && cell_views(p.cells@) == agg_header_cells(iherb) + agg_body_cells(
            rows,
            iherb,
        ) + seq![
            text_at(last, 0, "GRAND TOTAL"@, Style::Heading),
            qty_at(
                last,
                2,
                seq_sum(agg_qty_values(rows, iherb)),
                if iherb { Style::NumberBold } else { Style::WholeBold },
            ),
            money_at(last, 3, seq_sum(agg_money_values(rows)), Style::MoneyBold),
        ]
    } else {
        r == Err::<SheetPlan, PoError>(PoError::TotalTooLarge)
    }
}

fn widths_of(ws: &[u32]) -> (r: Vec<(u16, u32)>)
    requires
        ws@.len() <= 16,
    ensures
        r@.len() == ws@.len(),
        forall|i: int| 0 <= i < ws@.len() ==> #[trigger] r@[i] == (i as u16, ws@[i]),
{
    let mut r: Vec<(u16, u32)> = Vec::new();
    let mut i: usize = 0;
    while i < ws.len()
        invariant
            ws@.len() <= 16,
            i <= ws@.len(),
            r@.len() == i,
            forall|k: int| 0 <= k < i ==> #[trigger] r@[k] == (k as u16, ws@[k]),
        decreases ws@.len() - i,
    {
        r.push((i as u16, ws[i]));
        i = i + 1;
    }
    r
}

/// Lays out the PO summary sheet of one platform.
pub fn aggregator_sheet(rows: &Vec<AggRow>, platform: &str) -> (r: Result<SheetPlan, PoError>)
    requires
        rows@.len() + 1 <= u32::MAX,
    ensures
        aggregator_sheet_spec(rows@, platform@, r),
{
    let iherb = crate::text::str_eq(platform, "iHerb");
    let ghost g_iherb = platform@ == "iHerb"@;
    let mut qtys: Vec<i128> = Vec::new();
    let mut costs: Vec<i128> = Vec::new();
    let mut cells: Vec<CellWrite> = Vec::new();
    cells.push(text_cell(0, 0, if iherb { "SKU".to_string() } else { "ASIN".to_string() }, Style::Heading));
    cells.push(text_cell(0, 1, "Title".to_string(), Style::Heading));
    cells.push(text_cell(0, 2, if iherb { "Case Qty".to_string() } else { "Qty Ordered".to_string() }, Style::Heading));
    cells.push(text_cell(0, 3, "Total Cost".to_string(), Style::Heading));
    assert(cell_views(cells@) =~= agg_header_cells(g_iherb));
    let mut i: usize = 0;
    assert(rows@.take(0) =~= Seq::<AggRow>::empty());
    while i < rows.len()
        invariant
            rows@.len() + 1 <= u32::MAX,
            iherb == g_iherb,
            i <= rows@.len(),
            cell_views(cells@) == agg_header_cells(g_iherb) + agg_body_cells(rows@.take(i as int), g_iherb),
            ints(qtys@) == agg_qty_values(rows@.take(i as int), g_iherb),
            ints(costs@) == agg_money_values(rows@.take(i as int)),
        decreases rows@.len() - i,
    {
        assert(rows@.take(i + 1).drop_last() =~= rows@.take(i as int));
        assert(rows@.take(i + 1).last() == rows@[i as int]);
        let row = &rows[i];
        let n = (i + 1) as u32;
        let ghost before = cell_views(cells@);
        cells.push(text_cell(n, 0, row.id.clone(), Style::Plain));
        cells.push(text_cell(n, 1, row.title.clone(), Style::Plain));
        let q: i128 = if iherb {
            match row.case_qty {
                Some(c) => c,
                None => 0,
            }
        } else {
            row.qty_ordered
        };
        cells.push(qty_cell(n, 2, q, if iherb { Style::Number } else { Style::Whole }));
        cells.push(money_cell(n, 3, row.total_cost, Style::Money));
        assert(cell_views(cells@) =~= before + agg_row_cells(rows@[i as int], (i + 1) as int, g_iherb));
        let ghost qb = ints(qtys@);
        let ghost cb = ints(costs@);
        qtys.push(q);
        costs.push(row.total_cost);
        assert(ints(qtys@) =~= qb.push(q as int));
        assert(ints(costs@) =~= cb.push(row.total_cost as int));
        assert(agg_qty_values(rows@.take(i + 1), g_iherb) =~= agg_qty_values(rows@.take(i as int), g_iherb).push(agg_qty_value(rows@[i as int], g_iherb)));
        assert(agg_money_values(rows@.take(i + 1)) =~= agg_money_values(rows@.take(i as int)).push(rows@[i as int].total_cost as int));
        i = i + 1;
    }
    assert(rows@.take(rows@.len() as int) =~= rows@);
    let tq = match checked_sum(&qtys) {
        Some(t) => t,
        None => {
            return Err(PoError::TotalTooLarge);
        },
    };
    let tm = match checked_sum(&costs) {
        Some(t) => t,
        None => {
            return Err(PoError::TotalTooLarge);
        },
    };
    let last = (rows.len() + 1) as u32;
    let ghost body = cell_views(cells@);
    cells.push(text_cell(last, 0, "GRAND TOTAL".to_string(), Style::Heading));
    cells.push(qty_cell(last, 2, tq, if iherb { Style::NumberBold } else { Style::WholeBold }));
    cells.push(money_cell(last, 3, tm, Style::MoneyBold));
    assert(cell_views(cells@) =~= body + seq![
        text_at(last as int, 0, "GRAND TOTAL"@, Style::Heading),
        qty_at(last as int, 2, tq as int, if iherb { Style::NumberBold } else { Style::WholeBold }),
        money_at(last as int, 3, tm as int, Style::MoneyBold),
    ]);
    let mut name = platform.to_string();
    assert(name@ == platform@);
    name.append(" PO Summary");
    let widths = widths_of(&[18, 44, 14, 16]);
    assert(width_views(widths@) =~= agg_widths());
    Ok(SheetPlan { name, widths, cells, borders: false, paper: Paper::Default })
}

pub open spec fn combined_header_texts() -> Seq<Seq<char>> {
    seq![
        "ASIN / SKU"@,
        "Product Title"@,
        "AMZ Qty (Cases)"@,
        "Cost AMZ"@,
        "iHerb Qty (Cases)"@,
        "Cost iHerb"@,
        "Total Cases AMZ+iHerb"@,
        "Total Cost AMZ+iHerb"@,
    ]
}

pub open spec fn heading_cells(texts: Seq<Seq<char>>, row: int, style: Style) -> Seq<CellView> {
    Seq::new(texts.len(), |c: int| text_at(row, c, texts[c], style))
}

pub open spec fn combined_widths() -> Seq<(int, int)> {
    seq![(0, 18), (1, 44), (2, 16), (3, 14), (4, 16), (5, 14), (6, 22), (7, 20)]
}

/// A quantity cell when the value is present, nothing otherwise.
pub open spec fn opt_qty(n: int, col: int, o: Option<i128>) -> Seq<CellView> {
    match o {
        Some(v) => seq![qty_at(n, col, v as int, Style::Number)],
        None => Seq::empty(),
    }
}

/// A money cell when the value is present, nothing otherwise.
pub open spec fn opt_money(n: int, col: int, o: Option<i128>) -> Seq<CellView> {
    match o {
        Some(v) => seq![money_at(n, col, v as int, Style::Money)],
        None => Seq::empty(),
    }
}

pub open spec fn combined_row_cells(r: CombinedRow, n: int) -> Seq<CellView> {
    let idf = if r.is_pack {
        Style::Grey
    } else {
        Style::Plain
    };
    seq![text_at(n, 0, r.id@, idf), text_at(n, 1, r.title@, idf)] + opt_qty(n, 2, r.amz_qty)
        + opt_money(n, 3, r.amz_cost) + opt_qty(n, 4, r.iherb_cases) + opt_money(n, 5, r.iherb_cost)
        + opt_qty(n, 6, r.total_cases) + seq![money_at(n, 7, r.total_cost as int, Style::Money)]
}

pub open spec fn combined_body_cells(rows: Seq<CombinedRow>) -> Seq<CellView>
    decreases rows.len(),
{
    if rows.len() == 0 {
        Seq::empty()
    } else {
        combined_body_cells(rows.drop_last()) + combined_row_cells(rows.last(), rows.len() as int)
    }
}

/// The values present among `s`, in order.
pub open spec fn present(s: Seq<Option<i128>>) -> Seq<int>
    decreases s.len(),
{
    if s.len() == 0 {
        Seq::empty()
    } else {
        let p = present(s.drop_last());
        match s.last() {
            Some(v) => p.push(v as int),
            None => p,
        }
    }
}

/// The six summed columns of the combined sheet, in column order.
pub open spec fn combined_columns(rows: Seq<CombinedRow>) -> Seq<Seq<int>> {
    seq![
        present(rows.map_values(|r: CombinedRow| r.amz_qty)),
        present(rows.map_values(|r: CombinedRow| r.amz_cost)),
        present(rows.map_values(|r: CombinedRow| r.iherb_cases)),
        present(rows.map_values(|r: CombinedRow| r.iherb_cost)),
        present(rows.map_values(|r: CombinedRow| r.total_cases)),
        rows.map_values(|r: CombinedRow| r.total_cost as int),
    ]
}

/// The Combined PO Summary sheet: a header row, a row per combined row (pack
/// products' id and title on grey, absent figures left blank) and a GRAND TOTAL
/// row summing the six numeric columns, every cell bordered in black, on legal
/// paper in landscape; `TotalTooLarge` when a running sum leaves 128 bits.
pub open spec fn combined_sheet_spec(rows: Seq<CombinedRow>, r: Result<SheetPlan, PoError>) -> bool {
    let cols = combined_columns(rows);
    let last = rows.len() + 1int;
    if forall|k: int| 0 <= k < 6 ==> sums_fit(#[trigger] cols[k]) {
        r matches Ok(p) && p.name@ == "Combined PO Summary"@ && p.borders && p.paper
            == Paper::LegalLandscape && width_views(p.widths@)
            == combined_widths() && cell_views(p.cells@) == heading_cells(
            combined_header_texts(),
            0,
            Style::Heading,
        ) + combined_body_cells(rows) + seq![
            text_at(last, 0, "GRAND TOTAL"@, Style::Heading),
            qty_at(last, 2, seq_sum(cols[0]), Style::NumberBold),
            money_at(last, 3, seq_sum(cols[1]), Style::MoneyBold),
            qty_at(last, 4, seq_sum(cols[2]), Style::NumberBold),
            money_at(last, 5, seq_sum(cols[3]), Style::MoneyBold),
            qty_at(last, 6, seq_sum(cols[4]), Style::NumberBold),
            money_at(last, 7, seq_sum(cols[5]), Style::MoneyBold),
        ]
    } else {
        r == Err::<SheetPlan, PoError>(PoError::TotalTooLarge)
    }
}

fn opt_cells(n: u32, col: u16, o: Option<i128>, money: bool) -> (r: Vec<CellWrite>)
    ensures
        cell_views(r@) == (if money {
            opt_money(n as int, col as int, o)
        } else {
            opt_qty(n as int, col as int, o)
        }),
{
    let mut r: Vec<CellWrite> = Vec::new();
    match o {
        Some(v) => {
            if money {
                r.push(money_cell(n, col, v, Style::Money));
            } else {
                r.push(qty_cell(n, col, v, Style::Number));
            }
        },
        None => {},
    }
    assert(cell_views(r@) =~= (if money {
        opt_money(n as int, col as int, o)
    } else {
        opt_qty(n as int, col as int, o)
    }));
    r
}

fn push_present(vals: &mut Vec<i128>, o: Option<i128>)
    ensures
        ints(final(vals)@) == (match o {
            Some(v) => ints(old(vals)@).push(v as int),
            None => ints(old(vals)@),
        }),
{
    match o {
        Some(v) => {
            let ghost vb = ints(vals@);
            vals.push(v);
            assert(ints(vals@) =~= vb.push(v as int));
        },
        None => {},
    }
}

fn combined_row_writes(row: &CombinedRow, n: u32) -> (r: Vec<CellWrite>)
    ensures
        cell_views(r@) == combined_row_cells(*row, n as int),
{
    let mut r: Vec<CellWrite> = Vec::new();
    let idf = if row.is_pack { Style::Grey } else { Style::Plain };
    let idf2 = if row.is_pack { Style::Grey } else { Style::Plain };
    r.push(text_cell(n, 0, row.id.clone(), idf));
    r.push(text_cell(n, 1, row.title.clone(), idf2));
    let ghost a = cell_views(r@);
    let mut x2 = opt_cells(n, 2, row.amz_qty, false);
    let mut x3 = opt_cells(n, 3, row.amz_cost, true);
    let mut x4 = opt_cells(n, 4, row.iherb_cases, false);
    let mut x5 = opt_cells(n, 5, row.iherb_cost, true);
    let mut x6 = opt_cells(n, 6, row.total_cases, false);
    let ghost v2 = cell_views(x2@);
    let ghost v3 = cell_views(x3@);
    let ghost v4 = cell_views(x4@);
    let ghost v5 = cell_views(x5@);
    let ghost v6 = cell_views(x6@);
    r.append(&mut x2);
    r.append(&mut x3);
    r.append(&mut x4);
    r.append(&mut x5);
    r.append(&mut x6);
    r.push(money_cell(n, 7, row.total_cost, Style::Money));
    assert(cell_views(r@) =~= a + v2 + v3 + v4 + v5 + v6 + seq![money_at(n as int, 7, row.total_cost as int, Style::Money)]);
    r
}

proof fn lemma_present_step(s: Seq<Option<i128>>, i: int)
    requires
        0 <= i < s.len(),
    ensures
        present(s.take(i + 1)) == (match s[i] {
            Some(v) => present(s.take(i)).push(v as int),
            None => present(s.take(i)),
        }),
{
    assert(s.take(i + 1).drop_last() =~= s.take(i));
}

/// Lays out the Combined PO Summary sheet.
pub fn combined_sheet(rows: &Vec<CombinedRow>) -> (r: Result<SheetPlan, PoError>)
    requires
        rows@.len() + 1 <= u32::MAX,
    ensures
        combined_sheet_spec(rows@, r),
{
    let ghost rs = rows@;
    let mut cells: Vec<CellWrite> = Vec::new();
    cells.push(text_cell(0, 0, "ASIN / SKU".to_string(), Style::Heading));
    cells.push(text_cell(0, 1, "Product Title".to_string(), Style::Heading));
    cells.push(text_cell(0, 2, "AMZ Qty (Cases)".to_string(), Style::Heading));
    cells.push(text_cell(0, 3, "Cost AMZ".to_string(), Style::Heading));
    cells.push(text_cell(0, 4, "iHerb Qty (Cases)".to_string(), Style::Heading));
    cells.push(text_cell(0, 5, "Cost iHerb".to_string(), Style::Heading));
    cells.push(text_cell(0, 6, "Total Cases AMZ+iHerb".to_string(), Style::Heading));
    cells.push(text_cell(0, 7, "Total Cost AMZ+iHerb".to_string(), Style::Heading));
    assert(cell_views(cells@) =~= heading_cells(combined_header_texts(), 0, Style::Heading));
    let mut c0: Vec<i128> = Vec::new();
    let mut c1: Vec<i128> = Vec::new();
    let mut c2: Vec<i128> = Vec::new();
    let mut c3: Vec<i128> = Vec::new();
    let mut c4: Vec<i128> = Vec::new();
    let mut c5: Vec<i128> = Vec::new();
    let ghost s0 = rs.map_values(|r: CombinedRow| r.amz_qty);
    let ghost s1 = rs.map_values(|r: CombinedRow| r.amz_cost);
    let ghost s2 = rs.map_values(|r: CombinedRow| r.iherb_cases);
    let ghost s3 = rs.map_values(|r: CombinedRow| r.iherb_cost);
    let ghost s4 = rs.map_values(|r: CombinedRow| r.total_cases);
    let ghost s5 = rs.map_values(|r: CombinedRow| r.total_cost as int);
    let mut i: usize = 0;
    assert(rs.take(0) =~= Seq::<CombinedRow>::empty());
    assert(s0.take(0) =~= Seq::<Option<i128>>::empty());
    assert(s1.take(0) =~= Seq::<Option<i128>>::empty());
    assert(s2.take(0) =~= Seq::<Option<i128>>::empty());
    assert(s3.take(0) =~= Seq::<Option<i128>>::empty());
    assert(s4.take(0) =~= Seq::<Option<i128>>::empty());
    assert(s5.take(0) =~= Seq::<int>::empty());
    while i < rows.len()
        invariant
            rows@.len() + 1 <= u32::MAX,
            rs == rows@,
            s0 == rs.map_values(|r: CombinedRow| r.amz_qty),
            s1 == rs.map_values(|r: CombinedRow| r.amz_cost),
            s2 == rs.map_values(|r: CombinedRow| r.iherb_cases),
            s3 == rs.map_values(|r: CombinedRow| r.iherb_cost),
            s4 == rs.map_values(|r: CombinedRow| r.total_cases),
            s5 == rs.map_values(|r: CombinedRow| r.total_cost as int),
            i <= rs.len(),
            cell_views(cells@) == heading_cells(combined_header_texts(), 0, Style::Heading)
                + combined_body_cells(rs.take(i as int)),
            ints(c0@) == present(s0.take(i as int)),
            ints(c1@) == present(s1.take(i as int)),
            ints(c2@) == present(s2.take(i as int)),
            ints(c3@) == present(s3.take(i as int)),
            ints(c4@) == present(s4.take(i as int)),
            ints(c5@) == s5.take(i as int),
        decreases rs.len() - i,
    {
        assert(rs.take(i + 1).drop_last() =~= rs.take(i as int));
        assert(rs.take(i + 1).last() == rs[i as int]);
        proof {
            lemma_present_step(s0, i as int);
            lemma_present_step(s1, i as int);
            lemma_present_step(s2, i as int);
            lemma_present_step(s3, i as int);
            lemma_present_step(s4, i as int);
        }
        let row = &rows[i];
        let n = (i + 1) as u32;
        let ghost before = cell_views(cells@);
        let mut rc = combined_row_writes(row, n);
        let ghost rcv = cell_views(rc@);
        cells.append(&mut rc);
        assert(cell_views(cells@) =~= before + rcv);
        push_present(&mut c0, row.amz_qty);
        push_present(&mut c1, row.amz_cost);
        push_present(&mut c2, row.iherb_cases);
        push_present(&mut c3, row.iherb_cost);
        push_present(&mut c4, row.total_cases);
        let ghost c5b = ints(c5@);
        c5.push(row.total_cost);
        assert(ints(c5@) =~= c5b.push(row.total_cost as int));
        assert(s5.take(i + 1) =~= s5.take(i as int).push(rs[i as int].total_cost as int));
        i = i + 1;
    }
    assert(rs.take(rs.len() as int) =~= rs);
    assert(s0.take(rs.len() as int) =~= s0);
    assert(s1.take(rs.len() as int) =~= s1);
    assert(s2.take(rs.len() as int) =~= s2);
    assert(s3.take(rs.len() as int) =~= s3);
    assert(s4.take(rs.len() as int) =~= s4);
    assert(s5.take(rs.len() as int) =~= s5);
    let ghost cols = combined_columns(rs);
    assert(cols[0] == ints(c0@) && cols[1] == ints(c1@) && cols[2] == ints(c2@) && cols[3] == ints(c3@) && cols[4] == ints(c4@) && cols[5] == ints(c5@));
    let t0 = checked_sum(&c0);
    let t1 = checked_sum(&c1);
    let t2 = checked_sum(&c2);
    let t3 = checked_sum(&c3);
    let t4 = checked_sum(&c4);
    let t5 = checked_sum(&c5);
    match (t0, t1, t2, t3, t4, t5) {
        (Some(t0), Some(t1), Some(t2), Some(t3), Some(t4), Some(t5)) => {
            assert forall|k: int| 0 <= k < 6 implies sums_fit(#[trigger] cols[k]) by {}
            let last = (rows.len() + 1) as u32;
            let ghost body = cell_views(cells@);
            cells.push(text_cell(last, 0, "GRAND TOTAL".to_string(), Style::Heading));
            cells.push(qty_cell(last, 2, t0, Style::NumberBold));
            cells.push(money_cell(last, 3, t1, Style::MoneyBold));
            cells.push(qty_cell(last, 4, t2, Style::NumberBold));
            cells.push(money_cell(last, 5, t3, Style::MoneyBold));
            cells.push(qty_cell(last, 6, t4, Style::NumberBold));
            cells.push(money_cell(last, 7, t5, Style::MoneyBold));
            assert(cell_views(cells@) =~= body + seq![
                text_at(last as int, 0, "GRAND TOTAL"@, Style::Heading),
                qty_at(last as int, 2, t0 as int, Style::NumberBold),
                money_at(last as int, 3, t1 as int, Style::MoneyBold),
                qty_at(last as int, 4, t2 as int, Style::NumberBold),
                money_at(last as int, 5, t3 as int, Style::MoneyBold),
                qty_at(last as int, 6, t4 as int, Style::NumberBold),
                money_at(last as int, 7, t5 as int, Style::MoneyBold),
            ]);
            let widths = widths_of(&[18, 44, 16, 14, 16, 14, 22, 20]);
            assert(width_views(widths@) =~= combined_widths());
            Ok(SheetPlan { name: "Combined PO Summary".to_string(), widths, cells, borders: true, paper: Paper::LegalLandscape })
        },
        _ => {
            assert(!(forall|k: int| 0 <= k < 6 ==> sums_fit(#[trigger] cols[k]))) by {
                if t0 is None {
                    assert(!sums_fit(cols[0]));
                } else if t1 is None {
                    assert(!sums_fit(cols[1]));
                } else if t2 is None {
                    assert(!sums_fit(cols[2]));
                } else if t3 is None {
                    assert(!sums_fit(cols[3]));
                } else if t4 is None {
                    assert(!sums_fit(cols[4]));
                } else {
                    assert(!sums_fit(cols[5]));
                }
            }
            Err(PoError::TotalTooLarge)
        },
    }
}

/// Rows a block of PO lines takes: a subheading and a row per line, none when
/// there are no lines.
pub open spec fn block_height(ds: Seq<PoDetailRow>) -> int {
    if ds.len() == 0 {
        0
    } else {
        1 + ds.len() as int
    }
}

/// Rows a section takes: its heading, its two blocks and a blank row.
pub open spec fn section_height(sec: BigTicketSection) -> int {
    2 + block_height(sec.amz_rows@) + block_height(sec.iherb_rows@)
}

pub open spec fn sections_height(ss: Seq<BigTicketSection>) -> int
    decreases ss.len(),
{
    if ss.len() == 0 {
        0
    } else {
        sections_height(ss.drop_last()) + section_height(ss.last())
    }
}

pub open spec fn block_label(amazon: bool) -> Seq<char> {
    if amazon {
        "Amazon"@
    } else {
        "iHerb"@
    }
}

pub open spec fn block_heading_texts(amazon: bool) -> Seq<Seq<char>> {
    if amazon {
        seq![""@, ""@, "Amazon"@, "PO #"@, "Expected Date"@, "Ship To"@, "Qty (Cases)"@, "Total Cost"@]
    } else {
        seq![""@, ""@, "iHerb"@, "PO #"@, "Delivery Date"@, "Ship To State"@, "Cases"@, "Total Cost"@]
    }
}

pub open spec fn detail_cells(d: PoDetailRow, n: int, amazon: bool) -> Seq<CellView> {
    seq![
        text_at(n, 2, block_label(amazon), Style::Plain),
        text_at(n, 3, d.po@, Style::Plain),
        text_at(n, 4, d.date@, Style::Plain),
        text_at(n, 5, d.ship_to@, Style::Plain),
        qty_at(n, 6, d.qty as int, Style::Number),
        money_at(n, 7, d.total as int, Style::Money),
    ]
}

/// The cells of PO lines written from row `start` on, one row each.
pub open spec fn details_cells(ds: Seq<PoDetailRow>, start: int, amazon: bool) -> Seq<CellView>
    decreases ds.len(),
{
    if ds.len() == 0 {
        Seq::empty()
    } else {
        details_cells(ds.drop_last(), start, amazon) + detail_cells(
            ds.last(),
            start + ds.len() - 1,
            amazon,
        )
    }
}

pub open spec fn block_cells(ds: Seq<PoDetailRow>, start: int, amazon: bool) -> Seq<CellView> {
    if ds.len() == 0 {
        Seq::empty()
    } else {
        heading_cells(block_heading_texts(amazon), start, Style::Subheading) + details_cells(
            ds,
            start + 1,
            amazon,
        )
    }
}

pub open spec fn section_cells(sec: BigTicketSection, start: int) -> Seq<CellView> {
    seq![
        text_at(start, 0, sec.id@ + "   "@ + sec.name@, Style::Heading),
        text_at(start, 6, "Combined Total"@, Style::Heading),
        money_at(start, 7, sec.combined_total as int, Style::MoneyBold),
    ] + block_cells(sec.amz_rows@, start + 1, true) + block_cells(
        sec.iherb_rows@,
        start + 1 + block_height(sec.amz_rows@),
        false,
    )
}

/// The cells of the sections, each starting below the previous one.
pub open spec fn bigticket_cells(ss: Seq<BigTicketSection>) -> Seq<CellView>
    decreases ss.len(),
{
    if ss.len() == 0 {
        Seq::empty()
    } else {
        bigticket_cells(ss.drop_last()) + section_cells(ss.last(), sections_height(ss.drop_last()))
    }
}

pub open spec fn bigticket_widths() -> Seq<(int, int)> {
    seq![(0, 18), (1, 40), (2, 12), (3, 18), (4, 20), (5, 18), (6, 14), (7, 16)]
}

proof fn lemma_height_prefix(ss: Seq<BigTicketSection>, k: int)
    requires
        0 <= k <= ss.len(),
    ensures
        0 <= sections_height(ss.take(k)) <= sections_height(ss),
    decreases ss.len() - k,
{
    if k < ss.len() {
        assert(ss.take(k + 1).drop_last() =~= ss.take(k));
        lemma_height_prefix(ss, k + 1);
        lemma_height_nonneg(ss.take(k));
    } else {
        assert(ss.take(k) =~= ss);
        lemma_height_nonneg(ss);
    }
}

proof fn lemma_height_nonneg(ss: Seq<BigTicketSection>)
    ensures
        sections_height(ss) >= 0,
    decreases ss.len(),
{
    if ss.len() > 0 {
        lemma_height_nonneg(ss.drop_last());
    }
}

fn heading_writes(texts: &[&str], row: u32, style: Style) -> (r: Vec<CellWrite>)
    requires
        texts@.len() <= 16,
    ensures
        cell_views(r@) == heading_cells(texts@.map_values(|t: &str| t@), row as int, style),
{
    let mut r: Vec<CellWrite> = Vec::new();
    let mut c: usize = 0;
    while c < texts.len()
        invariant
            texts@.len() <= 16,
            c <= texts@.len(),
            r@.len() == c,
            forall|k: int| 0 <= k < c ==> (#[trigger] r@[k])@ == text_at(row as int, k, texts@[k]@, style),
        decreases texts@.len() - c,
    {
        let st = match style {
            Style::Heading => Style::Heading,
            Style::Plain => Style::Plain,
            Style::Grey => Style::Grey,
            Style::Subheading => Style::Subheading,
            Style::Number => Style::Number,
            Style::NumberBold => Style::NumberBold,
            Style::Whole => Style::Whole,
            Style::WholeBold => Style::WholeBold,
            Style::Money => Style::Money,
            Style::MoneyBold => Style::MoneyBold,
        };
        r.push(text_cell(row, c as u16, texts[c].to_string(), st));
        c = c + 1;
    }
    assert(cell_views(r@) =~= heading_cells(texts@.map_values(|t: &str| t@), row as int, style));
    r
}

fn block_writes(ds: &Vec<PoDetailRow>, start: u32, amazon: bool) -> (r: Vec<CellWrite>)
    requires
        start + block_height(ds@) <= u32::MAX,
    ensures
        cell_views(r@) == block_cells(ds@, start as int, amazon),
{
    let mut r: Vec<CellWrite> = Vec::new();
    if ds.len() == 0 {
        assert(cell_views(r@) =~= Seq::<CellView>::empty());
        return r;
    }
    let heads: [&str; 8] = if amazon {
        ["", "", "Amazon", "PO #", "Expected Date", "Ship To", "Qty (Cases)", "Total Cost"]
    } else {
        ["", "", "iHerb", "PO #", "Delivery Date", "Ship To State", "Cases", "Total Cost"]
    };
    let mut h = heading_writes(&heads, start, Style::Subheading);
    assert(heads@.map_values(|t: &str| t@) =~= block_heading_texts(amazon));
    let ghost hv = cell_views(h@);
    r.append(&mut h);
    let mut i: usize = 0;
    assert(ds@.take(0) =~= Seq::<PoDetailRow>::empty());
    assert(cell_views(r@) =~= hv + details_cells(ds@.take(0), start + 1, amazon));
    while i < ds.len()
        invariant
            start + 1 + ds@.len() <= u32::MAX,
            i <= ds@.len(),
            hv == heading_cells(block_heading_texts(amazon), start as int, Style::Subheading),
            cell_views(r@) == hv + details_cells(ds@.take(i as int), start + 1, amazon),
        decreases ds@.len() - i,
    {
        assert(ds@.take(i + 1).drop_last() =~= ds@.take(i as int));
        assert(ds@.take(i + 1).last() == ds@[i as int]);
        let d = &ds[i];
        let n = start + 1 + (i as u32);
        let ghost before = cell_views(r@);
        let label = if amazon { "Amazon".to_string() } else { "iHerb".to_string() };
        r.push(text_cell(n, 2, label, Style::Plain));
        r.push(text_cell(n, 3, d.po.clone(), Style::Plain));
        r.push(text_cell(n, 4, d.date.clone(), Style::Plain));
        r.push(text_cell(n, 5, d.ship_to.clone(), Style::Plain));
        r.push(qty_cell(n, 6, d.qty, Style::Number));
        r.push(money_cell(n, 7, d.total, Style::Money));
        assert(cell_views(r@) =~= before + detail_cells(ds@[i as int], n as int, amazon));
        i = i + 1;
    }
    assert(ds@.take(ds@.len() as int) =~= ds@);
    r
}

fn section_writes(sec: &BigTicketSection, start: u32) -> (r: Vec<CellWrite>)
    requires
        start + section_height(*sec) <= u32::MAX,
    ensures
        cell_views(r@) == section_cells(*sec, start as int),
{
    let mut r: Vec<CellWrite> = Vec::new();
    let mut title = sec.id.clone();
    title.append("   ");
    title.append(sec.name.as_str());
    r.push(text_cell(start, 0, title, Style::Heading));
    r.push(text_cell(start, 6, "Combined Total".to_string(), Style::Heading));
    r.push(money_cell(start, 7, sec.combined_total, Style::MoneyBold));
    let ghost hv = cell_views(r@);
    let amz_h: u32 = if sec.amz_rows.len() == 0 { 0 } else { 1 + sec.amz_rows.len() as u32 };
    let mut a = block_writes(&sec.amz_rows, start + 1, true);
    let mut b = block_writes(&sec.iherb_rows, start + 1 + amz_h, false);
    let ghost av = cell_views(a@);
    let ghost bv = cell_views(b@);
    r.append(&mut a);
    r.append(&mut b);
    assert(cell_views(r@) =~= hv + av + bv);
    r
}

/// The Big Ticket Breakdown sheet: per section, a heading row with the id and
/// name and the combined total, an Amazon block and an iHerb block (each a
/// subheading and a row per PO line, left out when there are no lines), and a
/// blank row; every written cell bordered in black.
pub open spec fn bigticket_sheet_spec(ss: Seq<BigTicketSection>, p: SheetPlan) -> bool {
    &&& p.name@ == "Big Ticket Breakdown"@
    &&& p.borders
    &&& p.paper == Paper::Default
    &&& width_views(p.widths@) == bigticket_widths()
    &&& cell_views(p.cells@) == bigticket_cells(ss)
}

/// The number of rows the Big Ticket Breakdown sheet takes, or `None` when that
/// is more than a sheet's row numbers reach.
pub fn bigticket_height(sections: &Vec<BigTicketSection>) -> (r: Option<u32>)
    ensures
        match r {
            Some(h) => h == sections_height(sections@),
            None => sections_height(sections@) > u32::MAX,
        },
{
    let ghost ss = sections@;
    let mut h: u32 = 0;
    let mut i: usize = 0;
    assert(ss.take(0) =~= Seq::<BigTicketSection>::empty());
    while i < sections.len()
        invariant
            ss == sections@,
            i <= ss.len(),
            h == sections_height(ss.take(i as int)),
        decreases ss.len() - i,
    {
        assert(ss.take(i + 1).drop_last() =~= ss.take(i as int));
        assert(ss.take(i + 1).last() == ss[i as int]);
        let sec = &sections[i];
        let a: u128 = if sec.amz_rows.len() == 0 { 0 } else { 1 + sec.amz_rows.len() as u128 };
        let b: u128 = if sec.iherb_rows.len() == 0 { 0 } else { 1 + sec.iherb_rows.len() as u128 };
        let next: u128 = h as u128 + 2 + a + b;
        if next > u32::MAX as u128 {
            proof {
                lemma_height_prefix(ss, i + 1);
            }
            return None;
        }
        h = next as u32;
        i = i + 1;
    }
    assert(ss.take(ss.len() as int) =~= ss);
    Some(h)
}

/// Lays out the Big Ticket Breakdown sheet.
pub fn bigticket_sheet(sections: &Vec<BigTicketSection>) -> (p: SheetPlan)
    requires
        sections_height(sections@) <= u32::MAX,
    ensures
        bigticket_sheet_spec(sections@, p),
{
    let ghost ss = sections@;
    let mut cells: Vec<CellWrite> = Vec::new();
    let mut row: u32 = 0;
    let mut i: usize = 0;
    assert(ss.take(0) =~= Seq::<BigTicketSection>::empty());
    assert(cell_views(cells@) =~= Seq::<CellView>::empty());
    while i < sections.len()
        invariant
            ss == sections@,
            sections_height(ss) <= u32::MAX,
            i <= ss.len(),
            row == sections_height(ss.take(i as int)),
            cell_views(cells@) == bigticket_cells(ss.take(i as int)),
        decreases ss.len() - i,
    {
        assert(ss.take(i + 1).drop_last() =~= ss.take(i as int));
        assert(ss.take(i + 1).last() == ss[i as int]);
        proof {
            lemma_height_prefix(ss, i + 1);
        }
        let sec = &sections[i];
        let ghost before = cell_views(cells@);
        let mut w = section_writes(sec, row);
        let ghost wv = cell_views(w@);
        cells.append(&mut w);
        assert(cell_views(cells@) =~= before + wv);
        let h: u32 = 2 + (if sec.amz_rows.len() == 0 { 0 } else { 1 + sec.amz_rows.len() as u32 }) + (if sec.iherb_rows.len() == 0 { 0 } else { 1 + sec.iherb_rows.len() as u32 });
        row = row + h;
        i = i + 1;
    }
    assert(ss.take(ss.len() as int) =~= ss);
    let widths = widths_of(&[18, 40, 12, 18, 20, 18, 14, 16]);
    assert(width_views(widths@) =~= bigticket_widths());
    SheetPlan { name: "Big Ticket Breakdown".to_string(), widths, cells, borders: true, paper: Paper::Default }
}

} // verus!
