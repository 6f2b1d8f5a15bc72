//! Single-platform purchase-order summaries (the PO Aggregator tab).
use crate::group::{
    cases_of, distinct_keys, first_title, group_lines, groups_of, line_keys, line_views, qty_of,
    total_of, within, Group, Line, LineView, line_in_range, lines_in_range, line_figures, lines_fit,
    lemma_mass_nonneg, lemma_mass_prefix, mass,
};
use crate::number::{number_cell, number_or_zero};
use crate::order::{ints, is_desc_order, order_desc};
use crate::rules::{is_missing_sku, missing_sku, spec_units_per_case, units_per_case};
use crate::table::{cell, cell_text, Missing, PoError, Table};
use crate::text::{col, column_of};
use vstd::prelude::*;

verus! {

/// One product of a summary: its ASIN or SKU, title, quantity ordered, cases
/// (iHerb only) and total cost. Quantities are in units of 1/1200000000, money in
/// units of 10^-16.
pub struct AggRow {
    pub id: String,
    pub title: String,
    pub qty_ordered: i128,
    pub case_qty: Option<i128>,
    pub total_cost: i128,
}

/// A summary of one platform's purchase order.
pub struct ProcessResult {
    pub rows: Vec<AggRow>,
    pub grand_total: i128,
    pub total_cases: i128,
    pub sku_count: usize,
}

/// Sum of the totals of all lines.
pub open spec fn lines_total(ls: Seq<LineView>) -> int
    decreases ls.len(),
{
    if ls.len() == 0 {
        0
    } else {
        lines_total(ls.drop_last()) + ls.last().total
    }
}

/// Sum of the cases of all lines.
pub open spec fn lines_cases(ls: Seq<LineView>) -> int
    decreases ls.len(),
{
    if ls.len() == 0 {
        0
    } else {
        lines_cases(ls.drop_last()) + ls.last().cases
    }
}

/// The total cost of each group, in the order of the groups.
pub open spec fn group_totals(ls: Seq<LineView>) -> Seq<int> {
    distinct_keys(line_keys(ls)).map_values(|k: Seq<char>| total_of(ls, k))
}

/// `row` reports the group of key `k`.
pub open spec fn row_of_group(row: AggRow, ls: Seq<LineView>, k: Seq<char>, with_cases: bool) -> bool {
    &&& row.id@ == k
    &&& row.title@ == first_title(ls, k)
    &&& row.qty_ordered == qty_of(ls, k)
    &&& match row.case_qty {
        Some(c) => with_cases && c == cases_of(ls, k),
        None => !with_cases,
    }
    &&& row.total_cost == total_of(ls, k)
}

/// `res` summarizes the lines `ls`: one row per distinct key, ordered by
/// decreasing total cost (ties in first-occurrence order), the grand total of all
/// lines, their total cases and the number of distinct keys.
pub open spec fn is_summary_of(res: ProcessResult, ls: Seq<LineView>, with_cases: bool) -> bool {
    let dk = distinct_keys(line_keys(ls));
    &&& res.rows@.len() == dk.len()
    &&& res.sku_count == dk.len()
    &&& res.grand_total == lines_total(ls)
    &&& res.total_cases == lines_cases(ls)
    &&& exists|order: Seq<usize>|
        #![trigger is_desc_order(group_totals(ls), order)]
        is_desc_order(group_totals(ls), order) && forall|a: int|
            0 <= a < res.rows@.len() ==> row_of_group(
                #[trigger] res.rows@[a],
                ls,
                dk[order[a] as int],
                with_cases,
            )
}

proof fn lemma_take_step(ls: Seq<LineView>, i: int)
    requires
        0 <= i < ls.len(),
    ensures
        ls.take(i + 1).drop_last() == ls.take(i),
        ls.take(i + 1).last() == ls[i],
{
    assert(ls.take(i + 1).drop_last() =~= ls.take(i));
}

/// Groups the lines, orders the groups by decreasing total cost and totals them.
pub fn summarize(lines: &Vec<Line>, with_cases: bool) -> (res: ProcessResult)
    requires
        lines_in_range(line_views(lines@)),
    ensures
        is_summary_of(res, line_views(lines@), with_cases),
{
    let ghost lv = line_views(lines@);
    let ghost dk = distinct_keys(line_keys(lv));
    let gs = group_lines(lines);
    let mut keys: Vec<i128> = Vec::new();
    let mut g: usize = 0;
    while g < gs.len()
        invariant
            g <= gs@.len(),
            keys@.len() == g,
            forall|h: int| 0 <= h < g ==> #[trigger] keys@[h] == gs@[h].total,
        decreases gs@.len() - g,
    {
        keys.push(gs[g].total);
        g = g + 1;
    }
    assert(ints(keys@) =~= group_totals(lv));
    let order = order_desc(&keys);
    let mut rows: Vec<AggRow> = Vec::new();
    let mut a: usize = 0;
    while a < order.len()
        invariant
            groups_of(gs@, lv),
            lv == line_views(lines@),
            dk == distinct_keys(line_keys(lv)),
            is_desc_order(group_totals(lv), order@),
            order@.len() == gs@.len(),
            a <= order@.len(),
            rows@.len() == a,
            forall|b: int|
                0 <= b < a ==> row_of_group(#[trigger] rows@[b], lv, dk[order@[b] as int], with_cases),
        decreases order@.len() - a,
    {
        let grp: &Group = &gs[order[a]];
        assert(order@[a as int] < gs@.len());
        rows.push(
            AggRow {
                id: grp.key.clone(),
                title: grp.title.clone(),
                qty_ordered: grp.qty,
                case_qty: if with_cases {
                    Some(grp.cases)
                } else {
                    None
                },
                total_cost: grp.total,
            },
        );
        a = a + 1;
    }
    let mut grand_total: i128 = 0;
    let mut total_cases: i128 = 0;
    let mut i: usize = 0;
    assert(lv.take(0) =~= Seq::<LineView>::empty());
    while i < lines.len()
        invariant
            lv == line_views(lines@),
            lines_in_range(lv),
            i <= lines@.len(),
            grand_total == lines_total(lv.take(i as int)),
            total_cases == lines_cases(lv.take(i as int)),
            within(grand_total as int, mass(lv.take(i as int))),
            within(total_cases as int, mass(lv.take(i as int))),
        decreases lines@.len() - i,
    {
        proof {
            lemma_take_step(lv, i as int);
            lemma_mass_prefix(lv, i as int);
            lemma_mass_prefix(lv, i + 1);
            assert(lv[i as int] == lines@[i as int]@);
        }
        grand_total = grand_total + lines[i].total;
        total_cases = total_cases + lines[i].cases;
        i = i + 1;
    }
    assert(lv.take(lines@.len() as int) =~= lv);
    let sku_count = gs.len();
    ProcessResult { rows, grand_total, total_cases, sku_count }
}

/// `column_of`, failing with `m` when the column is absent.
pub open spec fn required(h: Seq<String>, name: Seq<char>, m: Missing) -> Result<int, Missing> {
    match column_of(h, name) {
        Some(i) => Ok(i),
        None => Err(m),
    }
}

pub fn need_col(h: &Vec<String>, name: &str, m: Missing) -> (r: Result<usize, PoError>)
    ensures
        match r {
            Ok(i) => required(h@, name@, m) == Ok::<int, Missing>(i as int),
            Err(e) => required(h@, name@, m) == Err::<int, Missing>(m) && e == PoError::MissingColumn(m),
        },
{
    match col(h, name) {
        Some(i) => Ok(i),
        None => Err(PoError::MissingColumn(m)),
    }
}

/// The line an Amazon PO row gives: key ASIN, the title, quantity and cases
/// `Quantity Requested`, total `Quantity Requested × Case Cost`.
pub open spec fn amazon_line(row: Seq<String>, a: int, t: int, q: int, c: int) -> LineView {
    let qty = number_or_zero(cell_text(row, q));
    let cost = number_or_zero(cell_text(row, c));
    LineView {
        key: cell_text(row, a),
        title: cell_text(row, t),
        qty: 12 * qty,
        cases: 12 * qty,
        total: qty * cost,
    }
}

pub fn amazon_line_of(row: &Vec<String>, a: usize, t: usize, q: usize, c: usize) -> (r: Option<Line>)
    ensures
        match r {
            Some(l) => l@ == amazon_line(row@, a as int, t as int, q as int, c as int) && line_in_range(l@),
            None => !line_in_range(amazon_line(row@, a as int, t as int, q as int, c as int)),
        },
{
    let qs = cell(row, q);
    let cs = cell(row, c);
    let qn = number_cell(qs.as_str());
    let cn = number_cell(cs.as_str());
    let ghost qv = number_or_zero(cell_text(row@, q as int));
    let ghost cv = number_or_zero(cell_text(row@, c as int));
    match line_figures(qn, cn, 12, 12, Ghost(qv), Ghost(cv)) {
        None => None,
        Some((x, y, z)) => Some(Line { key: cell(row, a), title: cell(row, t), qty: x, cases: y, total: z }),
    }
}

/// The columns an Amazon PO summary reads, or the first one missing.
pub open spec fn amazon_columns(h: Seq<String>) -> Result<(int, int, int, int), Missing> {
    match required(h, "ASIN"@, Missing::Asin) {
        Err(m) => Err(m),
        Ok(a) => match required(h, "Title"@, Missing::Title) {
            Err(m) => Err(m),
            Ok(t) => match required(h, "Quantity Requested"@, Missing::QuantityRequested) {
                Err(m) => Err(m),
                Ok(q) => match required(h, "Case Cost"@, Missing::CaseCost) {
                    Err(m) => Err(m),
                    Ok(c) => Ok((a, t, q, c)),
                },
            },
        },
    }
}

/// The lines of all rows of an Amazon PO sheet.
pub open spec fn amazon_lines(rows: Seq<Vec<String>>, a: int, t: int, q: int, c: int) -> Seq<LineView> {
    rows.map_values(|row: Vec<String>| amazon_line(row@, a, t, q, c))
}

pub fn amazon_lines_of(rows: &Vec<Vec<String>>, a: usize, t: usize, q: usize, c: usize) -> (r: Option<
    Vec<Line>,
>)
    ensures
        match r {
            Some(lines) => line_views(lines@) == amazon_lines(rows@, a as int, t as int, q as int, c as int)
                && forall|j: int| 0 <= j < lines@.len() ==> line_in_range(#[trigger] lines@[j]@),
            None => !lines_in_range(amazon_lines(rows@, a as int, t as int, q as int, c as int)),
        },
{
    let ghost spec = amazon_lines(rows@, a as int, t as int, q as int, c as int);
    let mut lines: Vec<Line> = Vec::new();
    let mut bad = false;
    let mut i: usize = 0;
    assert(spec.take(0) =~= Seq::<LineView>::empty());
    while i < rows.len()
        invariant
            spec == amazon_lines(rows@, a as int, t as int, q as int, c as int),
            i <= rows@.len(),
            !bad ==> line_views(lines@) == spec.take(i as int),
            !bad ==> forall|j: int| 0 <= j < lines@.len() ==> line_in_range(#[trigger] lines@[j]@),
            bad ==> !lines_in_range(spec.take(i as int)),
        decreases rows@.len() - i,
    {
        assert(spec.take(i + 1) =~= spec.take(i as int).push(spec[i as int]));
        assert(spec.take(i + 1).drop_last() =~= spec.take(i as int));
        proof {
            lemma_mass_nonneg(spec.take(i as int));
        }
        let lo = amazon_line_of(&rows[i], a, t, q, c);
        if !bad {
            match lo {
                Some(l) => {
                    let ghost before = lines@;
                    lines.push(l);
                    assert(line_views(lines@) =~= line_views(before).push(l@));
                },
                None => {
                    bad = true;
                },
            }
        }
        i = i + 1;
    }
    assert(spec.take(rows@.len() as int) =~= spec);
    if bad {
        None
    } else {
        Some(lines)
    }
}

/// Summarizes an Amazon PO sheet: groups rows by ASIN (every row, an empty ASIN
/// included), summing `Quantity Requested` and `Quantity Requested × Case Cost`.
pub fn summarize_amazon(t: &Table) -> (r: Result<ProcessResult, PoError>)
    ensures
        match amazon_columns(t.headers@) {
            Err(m) => r == Err::<ProcessResult, PoError>(PoError::MissingColumn(m)),
            Ok((a, ti, q, c)) => if lines_in_range(amazon_lines(t.rows@, a, ti, q, c)) {
                r matches Ok(res) && is_summary_of(res, amazon_lines(t.rows@, a, ti, q, c), false)
            } else {
                r == Err::<ProcessResult, PoError>(PoError::TotalTooLarge)
            },
        },
{
    let a = need_col(&t.headers, "ASIN", Missing::Asin)?;
    let ti = need_col(&t.headers, "Title", Missing::Title)?;
    let q = need_col(&t.headers, "Quantity Requested", Missing::QuantityRequested)?;
    let c = need_col(&t.headers, "Case Cost", Missing::CaseCost)?;
    match amazon_lines_of(&t.rows, a, ti, q, c) {
        None => Err(PoError::TotalTooLarge),
        Some(lines) => {
            if lines_fit(&lines) {
                Ok(summarize(&lines, false))
            } else {
                Err(PoError::TotalTooLarge)
            }
        },
    }
}

/// Cases, in units of 1/12000000000000 of a case, of `qty` units read in
/// hundred-millionths: the quantity divided by the SKU's units per case.
pub open spec fn cases_for(sku: Seq<char>, qty: int) -> int {
    if spec_units_per_case(sku) == 6 {
        2 * qty
    } else {
        qty
    }
}

/// The line an iHerb PO row gives: key the SKU, quantity `Qty Ordered`, cases
/// `Qty Ordered ÷ units per case`, total `Qty Ordered × Unit Price`.
pub open spec fn iherb_line(row: Seq<String>, s: int, t: int, q: int, u: int) -> LineView {
    let sku = cell_text(row, s);
    let qty = number_or_zero(cell_text(row, q));
    let unit = number_or_zero(cell_text(row, u));
    LineView {
        key: sku,
        title: cell_text(row, t),
        qty: 12 * qty,
        cases: cases_for(sku, qty),
        total: qty * unit,
    }
}

/// The lines of an iHerb PO's rows, rows with a missing SKU left out.
pub open spec fn iherb_lines(rows: Seq<Vec<String>>, s: int, t: int, q: int, u: int) -> Seq<
    LineView,
>
    decreases rows.len(),
{
    if rows.len() == 0 {
        Seq::empty()
    } else {
        let p = iherb_lines(rows.drop_last(), s, t, q, u);
        let row = rows.last()@;
        if is_missing_sku(cell_text(row, s)) {
            p
        } else {
            p.push(iherb_line(row, s, t, q, u))
        }
    }
}

pub fn iherb_line_of(row: &Vec<String>, s: usize, t: usize, q: usize, u: usize) -> (r: Option<Line>)
    ensures
        match r {
            Some(l) => l@ == iherb_line(row@, s as int, t as int, q as int, u as int) && line_in_range(l@),
            None => !line_in_range(iherb_line(row@, s as int, t as int, q as int, u as int)),
        },
{
    let sku = cell(row, s);
    let qs = cell(row, q);
    let us = cell(row, u);
    let qn = number_cell(qs.as_str());
    let un = number_cell(us.as_str());
    let ghost qv = number_or_zero(cell_text(row@, q as int));
    let ghost uv = number_or_zero(cell_text(row@, u as int));
    let upc = units_per_case(sku.as_str());
    let m: i128 = if upc == 6 { 2 } else { 1 };
    match line_figures(qn, un, 12, m, Ghost(qv), Ghost(uv)) {
        None => None,
        Some((x, y, z)) => Some(Line { key: sku, title: cell(row, t), qty: x, cases: y, total: z }),
    }
}

pub fn iherb_lines_of(rows: &Vec<Vec<String>>, s: usize, t: usize, q: usize, u: usize) -> (r: Option<
    Vec<Line>,
>)
    ensures
        match r {
            Some(lines) => line_views(lines@) == iherb_lines(rows@, s as int, t as int, q as int, u as int)
                && forall|j: int| 0 <= j < lines@.len() ==> line_in_range(#[trigger] lines@[j]@),
            None => !lines_in_range(iherb_lines(rows@, s as int, t as int, q as int, u as int)),
        },
{
    let mut lines: Vec<Line> = Vec::new();
    let mut bad = false;
    let mut i: usize = 0;
    assert(rows@.take(0) =~= Seq::<Vec<String>>::empty());
    assert(line_views(lines@) =~= Seq::<LineView>::empty());
    while i < rows.len()
        invariant
            i <= rows@.len(),
            !bad ==> forall|j: int| 0 <= j < lines@.len() ==> line_in_range(#[trigger] lines@[j]@),
            !bad ==> line_views(lines@) == iherb_lines(rows@.take(i as int), s as int, t as int, q as int, u as int),
            bad ==> !lines_in_range(iherb_lines(rows@.take(i as int), s as int, t as int, q as int, u as int)),
        decreases rows@.len() - i,
    {
        let ghost prev = iherb_lines(rows@.take(i as int), s as int, t as int, q as int, u as int);
        assert(rows@.take(i + 1).drop_last() =~= rows@.take(i as int));
        assert(rows@.take(i + 1).last() == rows@[i as int]);
        proof {
            lemma_mass_nonneg(prev);
        }
        let sku = cell(&rows[i], s);
        if !missing_sku(sku.as_str()) {
            let ghost x = iherb_line(rows@[i as int]@, s as int, t as int, q as int, u as int);
            assert(prev.push(x).drop_last() =~= prev);
            let lo = iherb_line_of(&rows[i], s, t, q, u);
            if !bad {
                match lo {
                    Some(l) => {
                        let ghost before = lines@;
                        lines.push(l);
                        assert(line_views(lines@) =~= line_views(before).push(l@));
                    },
                    None => {
                        bad = true;
                    },
                }
            }
        }
        i = i + 1;
    }
    assert(rows@.take(rows@.len() as int) =~= rows@);
    if bad {
        None
    } else {
        Some(lines)
    }
}

/// The columns an iHerb PO summary reads, or the first one missing.
pub open spec fn iherb_columns(h: Seq<String>) -> Result<(int, int, int, int), Missing> {
    match required(h, "Buyers Catalog or Stock Keeping #"@, Missing::Sku) {
        Err(m) => Err(m),
        Ok(s) => match required(h, "Product/Item Description"@, Missing::Title) {
            Err(m) => Err(m),
            Ok(t) => match required(h, "Qty Ordered"@, Missing::QtyOrdered) {
                Err(m) => Err(m),
                Ok(q) => match required(h, "Unit Price"@, Missing::UnitPrice) {
                    Err(m) => Err(m),
                    Ok(u) => Ok((s, t, q, u)),
                },
            },
        },
    }
}

/// Summarizes an iHerb PO: groups rows by SKU (rows whose SKU is empty or `nan`
/// left out), summing units, cases (units ÷ units per case) and
/// `Qty Ordered × Unit Price`.
pub fn summarize_iherb(t: &Table) -> (r: Result<ProcessResult, PoError>)
    ensures
        match iherb_columns(t.headers@) {
            Err(m) => r == Err::<ProcessResult, PoError>(PoError::MissingColumn(m)),
            Ok((s, ti, q, u)) => if lines_in_range(iherb_lines(t.rows@, s, ti, q, u)) {
                r matches Ok(res) && is_summary_of(res, iherb_lines(t.rows@, s, ti, q, u), true)
            } else {
                r == Err::<ProcessResult, PoError>(PoError::TotalTooLarge)
            },
        },
{
    let s = need_col(&t.headers, "Buyers Catalog or Stock Keeping #", Missing::Sku)?;
    let ti = need_col(&t.headers, "Product/Item Description", Missing::Title)?;
    let q = need_col(&t.headers, "Qty Ordered", Missing::QtyOrdered)?;
    let u = need_col(&t.headers, "Unit Price", Missing::UnitPrice)?;
    match iherb_lines_of(&t.rows, s, ti, q, u) {
        None => Err(PoError::TotalTooLarge),
        Some(lines) => {
            if lines_fit(&lines) {
                Ok(summarize(&lines, true))
            } else {
                Err(PoError::TotalTooLarge)
            }
        },
    }
}

} // verus!
