//! The Big Ticket Breakdown: products whose combined Amazon and iHerb cost
//! reaches the big-ticket threshold, with their PO lines.
use crate::aggregate::{cases_for, need_col, required};
use crate::combine::{arranged, false_flags, find_group, indexed, oi};
use crate::group::{
    distinct_keys, group_lines_indexed, groups_of, has_key, lemma_distinct_keys, lemma_mass_append,
    lemma_mass_nonneg, line_figures, line_in_range, line_keys, line_views, lines_fit, lines_in_range,
    mass, total_of, within, Group, Line, LineView,
};
use crate::number::{number_cell, number_or_zero};
use crate::order::{ints, is_desc_order, order_desc};
use crate::rules::{is_missing_sku, missing_sku, units_per_case, BIG_TICKET_THRESHOLD};
use crate::sources::{
    load_mapping, mapping_columns, mapping_entries, mapping_views, Mapping,
    MappingView,
};
use crate::table::{cell, cell_text, Missing, PoError, Table};
use crate::text::{col, column_of, str_eq};
use indexmap::IndexMap;
use vstd::prelude::*;

verus! {

/// One PO line of a big-ticket product. `qty` is in cases, in units of 1/1200000000;
/// `total` in units of 10^-16.
pub struct PoDetailRow {
    pub po: String,
    pub date: String,
    pub ship_to: String,
    pub qty: i128,
    pub total: i128,
}

pub struct DetailView {
    pub po: Seq<char>,
    pub date: Seq<char>,
    pub ship_to: Seq<char>,
    pub qty: int,
    pub total: int,
}

impl View for PoDetailRow {
    type V = DetailView;

    open spec fn view(&self) -> DetailView {
        DetailView {
            po: self.po@,
            date: self.date@,
            ship_to: self.ship_to@,
            qty: self.qty as int,
            total: self.total as int,
        }
    }
}

impl PoDetailRow {
    /// A copy of the row.
    pub fn copy(&self) -> (r: PoDetailRow)
        ensures
            r@ == self@,
    {
        PoDetailRow {
            po: self.po.clone(),
            date: self.date.clone(),
            ship_to: self.ship_to.clone(),
            qty: self.qty,
            total: self.total,
        }
    }
}

pub open spec fn detail_views(ds: Seq<PoDetailRow>) -> Seq<DetailView> {
    ds.map_values(|d: PoDetailRow| d@)
}

/// A big-ticket product: its ASIN or SKU, its name, its combined total and its
/// Amazon and iHerb PO lines.
pub struct BigTicketSection {
    pub id: String,
    pub name: String,
    pub combined_total: i128,
    pub amz_rows: Vec<PoDetailRow>,
    pub iherb_rows: Vec<PoDetailRow>,
}

pub struct SectionView {
    pub id: Seq<char>,
    pub name: Seq<char>,
    pub combined_total: int,
    pub amz_rows: Seq<DetailView>,
    pub iherb_rows: Seq<DetailView>,
}

impl View for BigTicketSection {
    type V = SectionView;

    open spec fn view(&self) -> SectionView {
        SectionView {
            id: self.id@,
            name: self.name@,
            combined_total: self.combined_total as int,
            amz_rows: detail_views(self.amz_rows@),
            iherb_rows: detail_views(self.iherb_rows@),
        }
    }
}

pub open spec fn section_views(ss: Seq<BigTicketSection>) -> Seq<SectionView> {
    ss.map_values(|s: BigTicketSection| s@)
}

/// The cell of an optional column; empty when the column is absent.
pub open spec fn opt_cell(row: Seq<String>, o: Option<int>) -> Seq<char> {
    match o {
        Some(i) => cell_text(row, i),
        None => Seq::empty(),
    }
}

pub open spec fn opt_int(o: Option<usize>) -> Option<int> {
    match o {
        Some(i) => Some(i as int),
        None => None,
    }
}

/// A PO line with its key (ASIN or SKU), its cases and its total.
pub type Entry = (LineView, DetailView);

/// The entry of an Amazon PO row: cases `Quantity Requested`, total
/// `Quantity Requested × Case Cost`, and its PO, expected date and ship-to location.
pub open spec fn amazon_entry(
    row: Seq<String>,
    a: int,
    q: int,
    c: int,
    po: Option<int>,
    ex: Option<int>,
    sh: Option<int>,
) -> Entry {
    let qty = number_or_zero(cell_text(row, q));
    let cost = number_or_zero(cell_text(row, c));
    (
        LineView {
            key: cell_text(row, a),
            title: Seq::empty(),
            qty: 12 * qty,
            cases: 12 * qty,
            total: qty * cost,
        },
        DetailView {
            po: opt_cell(row, po),
            date: opt_cell(row, ex),
            ship_to: opt_cell(row, sh),
            qty: 12 * qty,
            total: qty * cost,
        },
    )
}

/// The entries of an Amazon PO's rows, rows with an empty ASIN left out.
pub open spec fn amazon_entries(
    rows: Seq<Vec<String>>,
    a: int,
    q: int,
    c: int,
    po: Option<int>,
    ex: Option<int>,
    sh: Option<int>,
) -> Seq<Entry>
    decreases rows.len(),
{
    if rows.len() == 0 {
        Seq::empty()
    } else {
        let p = amazon_entries(rows.drop_last(), a, q, c, po, ex, sh);
        let row = rows.last()@;
        if cell_text(row, a).len() == 0 {
            p
        } else {
            p.push(amazon_entry(row, a, q, c, po, ex, sh))
        }
    }
}

/// A ship-to state that names a state: not empty and not `nan`.
pub open spec fn is_state(s: Seq<char>) -> bool {
    s.len() > 0 && s != "nan"@
}

/// The ship-to state that rows `rows` give PO `po`: the state of the last of
/// them of that PO whose state is filled in, or the empty text (also when the
/// file has no PO column). Taken over the rows up to and including a row, it is
/// the row's state forward-filled within its PO.
pub open spec fn po_state(rows: Seq<Vec<String>>, p: Option<int>, st: Option<int>, po: Seq<char>) -> Seq<
    char,
>
    decreases rows.len(),
{
    if rows.len() == 0 || p is None {
        Seq::empty()
    } else {
        let row = rows.last()@;
        if opt_cell(row, p) == po && is_state(opt_cell(row, st)) {
            opt_cell(row, st)
        } else {
            po_state(rows.drop_last(), p, st, po)
        }
    }
}

/// The entry of an iHerb PO row, `upto` being the file's rows up to and including
/// it: cases `Qty Ordered ÷ units per case`, total `Qty Ordered × Unit Price`, its
/// PO, requested delivery date, and the ship-to state forward-filled within its
/// PO.
pub open spec fn iherb_entry(
    upto: Seq<Vec<String>>,
    row: Seq<String>,
    s: int,
    q: int,
    u: int,
    po: Option<int>,
    dl: Option<int>,
    st: Option<int>,
) -> Entry {
    let sku = cell_text(row, s);
    let qty = number_or_zero(cell_text(row, q));
    let unit = number_or_zero(cell_text(row, u));
    (
        LineView {
            key: sku,
            title: Seq::empty(),
            qty: cases_for(sku, qty),
            cases: cases_for(sku, qty),
            total: qty * unit,
        },
        DetailView {
            po: opt_cell(row, po),
            date: opt_cell(row, dl),
            ship_to: po_state(upto, po, st, opt_cell(row, po)),
            qty: cases_for(sku, qty),
            total: qty * unit,
        },
    )
}

/// The entries of the rows of an iHerb PO, rows with a missing SKU left out.
pub open spec fn iherb_entries(
    rows: Seq<Vec<String>>,
    s: int,
    q: int,
    u: int,
    po: Option<int>,
    dl: Option<int>,
    st: Option<int>,
) -> Seq<Entry>
    decreases rows.len(),
{
    if rows.len() == 0 {
        Seq::empty()
    } else {
        let p = iherb_entries(rows.drop_last(), s, q, u, po, dl, st);
        let row = rows.last()@;
        if is_missing_sku(cell_text(row, s)) {
            p
        } else {
            p.push(iherb_entry(rows, row, s, q, u, po, dl, st))
        }
    }
}

pub open spec fn entry_lines(es: Seq<Entry>) -> Seq<LineView> {
    es.map_values(|e: Entry| e.0)
}

pub open spec fn entry_details(es: Seq<Entry>) -> Seq<DetailView> {
    es.map_values(|e: Entry| e.1)
}

/// Entries held as aligned lines and detail rows.
pub open spec fn holds_entries(lines: Seq<Line>, ds: Seq<PoDetailRow>, es: Seq<Entry>) -> bool {
    &&& holds_each(lines, ds, es)
    &&& lines_in_range(entry_lines(es))
}

/// Entries held as aligned lines and detail rows, each line within the bound.
pub open spec fn holds_each(lines: Seq<Line>, ds: Seq<PoDetailRow>, es: Seq<Entry>) -> bool {
    &&& line_views(lines) == entry_lines(es)
    &&& detail_views(ds) == entry_details(es)
    &&& forall|j: int| 0 <= j < lines.len() ==> line_in_range(#[trigger] lines[j]@)
}

fn opt_cell_of(row: &Vec<String>, o: Option<usize>) -> (r: String)
    ensures
        r@ == opt_cell(row@, opt_int(o)),
{
    match o {
        Some(i) => cell(row, i),
        None => String::new(),
    }
}

fn amazon_entry_of(
    row: &Vec<String>,
    a: usize,
    q: usize,
    c: usize,
    po: Option<usize>,
    ex: Option<usize>,
    sh: Option<usize>,
) -> (r: Option<(Line, PoDetailRow)>)
    ensures
        match r {
            Some(x) => (x.0@, x.1@) == amazon_entry(row@, a as int, q as int, c as int, opt_int(po), opt_int(ex), opt_int(sh))
                && line_in_range(x.0@),
            None => !line_in_range(amazon_entry(row@, a as int, q as int, c as int, opt_int(po), opt_int(ex), opt_int(sh)).0),
        },
{
    let qs = cell(row, q);
    let cs = cell(row, c);
    let qn = number_cell(qs.as_str());
    let cn = number_cell(cs.as_str());
    let ghost qv = number_or_zero(cell_text(row@, q as int));
    let ghost cv = number_or_zero(cell_text(row@, c as int));
    match line_figures(qn, cn, 12, 12, Ghost(qv), Ghost(cv)) {
        None => None,
        Some((x, y, z)) => {
            let line = Line { key: cell(row, a), title: String::new(), qty: x, cases: y, total: z };
            let d = PoDetailRow {
                po: opt_cell_of(row, po),
                date: opt_cell_of(row, ex),
                ship_to: opt_cell_of(row, sh),
                qty: x,
                total: z,
            };
            Some((line, d))
        },
    }
}

fn amazon_entries_of(
    rows: &Vec<Vec<String>>,
    a: usize,
    q: usize,
    c: usize,
    po: Option<usize>,
    ex: Option<usize>,
    sh: Option<usize>,
) -> (r: Option<(Vec<Line>, Vec<PoDetailRow>)>)
    ensures
        match r {
            Some(x) => holds_each(
                x.0@,
                x.1@,
                amazon_entries(rows@, a as int, q as int, c as int, opt_int(po), opt_int(ex), opt_int(sh)),
            ),
            None => !lines_in_range(
                entry_lines(amazon_entries(rows@, a as int, q as int, c as int, opt_int(po), opt_int(ex), opt_int(sh))),
            ),
        },
{
    let ghost cols = (a as int, q as int, c as int, opt_int(po), opt_int(ex), opt_int(sh));
    let mut lines: Vec<Line> = Vec::new();
    let mut ds: Vec<PoDetailRow> = Vec::new();
    let mut bad = false;
    let mut i: usize = 0;
    assert(rows@.take(0) =~= Seq::<Vec<String>>::empty());
    assert(line_views(lines@) =~= Seq::<LineView>::empty());
    assert(detail_views(ds@) =~= Seq::<DetailView>::empty());
    assert(entry_lines(Seq::<Entry>::empty()) =~= Seq::<LineView>::empty());
    assert(entry_details(Seq::<Entry>::empty()) =~= Seq::<DetailView>::empty());
    while i < rows.len()
        invariant
            i <= rows@.len(),
            cols == (a as int, q as int, c as int, opt_int(po), opt_int(ex), opt_int(sh)),
            !bad ==> holds_each(
                lines@,
                ds@,
                amazon_entries(rows@.take(i as int), cols.0, cols.1, cols.2, cols.3, cols.4, cols.5),
            ),
            bad ==> !lines_in_range(
                entry_lines(amazon_entries(rows@.take(i as int), cols.0, cols.1, cols.2, cols.3, cols.4, cols.5)),
            ),
        decreases rows@.len() - i,
    {
        assert(rows@.take(i + 1).drop_last() =~= rows@.take(i as int));
        assert(rows@.take(i + 1).last() == rows@[i as int]);
        let ghost es = amazon_entries(rows@.take(i as int), cols.0, cols.1, cols.2, cols.3, cols.4, cols.5);
        proof {
            lemma_mass_nonneg(entry_lines(es));
        }
        let asin = cell(&rows[i], a);
        if asin.unicode_len() != 0 {
            let ghost e = amazon_entry(rows@[i as int]@, cols.0, cols.1, cols.2, cols.3, cols.4, cols.5);
            assert(entry_lines(es.push(e)) =~= entry_lines(es).push(e.0));
            assert(entry_lines(es).push(e.0).drop_last() =~= entry_lines(es));
            assert(entry_details(es.push(e)) =~= entry_details(es).push(e.1));
            let eo = amazon_entry_of(&rows[i], a, q, c, po, ex, sh);
            if !bad {
                match eo {
                    Some((l, d)) => {
                        let ghost lb = lines@;
                        let ghost db = ds@;
                        lines.push(l);
                        ds.push(d);
                        assert(line_views(lines@) =~= line_views(lb).push(e.0));
                        assert(detail_views(ds@) =~= detail_views(db).push(e.1));
                    },
                    None => {
                        bad = true;
                    },
                }
            }
        }
        i = i + 1;
    }
    assert(rows@.take(rows@.len() as int) =~= rows@);
    if bad {
        None
    } else {
        Some((lines, ds))
    }
}

fn po_state_of(rows: &Vec<Vec<String>>, end: usize, p: Option<usize>, st: Option<usize>, po: &String) -> (r: String)
    requires
        end <= rows@.len(),
    ensures
        r@ == po_state(rows@.take(end as int), opt_int(p), opt_int(st), po@),
{
    if p.is_none() {
        return String::new();
    }
    let mut i: usize = end;
    while i > 0
        invariant
            i <= end <= rows@.len(),
            p is Some,
            po_state(rows@.take(end as int), opt_int(p), opt_int(st), po@) == po_state(
                rows@.take(i as int),
                opt_int(p),
                opt_int(st),
                po@,
            ),
        decreases i,
    {
        assert(rows@.take(i as int).drop_last() =~= rows@.take(i - 1));
        assert(rows@.take(i as int).last() == rows@[i - 1]);
        let row = &rows[i - 1];
        let pc = opt_cell_of(row, p);
        let sc = opt_cell_of(row, st);
        if pc == *po && sc.unicode_len() > 0 && !str_eq(sc.as_str(), "nan") {
            return sc;
        }
        i = i - 1;
    }
    assert(rows@.take(0) =~= Seq::<Vec<String>>::empty());
    String::new()
}

fn iherb_entry_of(
    rows: &Vec<Vec<String>>,
    k: usize,
    s: usize,
    q: usize,
    u: usize,
    po: Option<usize>,
    dl: Option<usize>,
    st: Option<usize>,
) -> (r: Option<(Line, PoDetailRow)>)
    requires
        k < rows@.len(),
    ensures
        match r {
            Some(x) => (x.0@, x.1@) == iherb_entry(
                rows@.take(k + 1),
                rows@[k as int]@,
                s as int,
                q as int,
                u as int,
                opt_int(po),
                opt_int(dl),
                opt_int(st),
            ) && line_in_range(x.0@),
            None => !line_in_range(
                iherb_entry(
                    rows@.take(k + 1),
                    rows@[k as int]@,
                    s as int,
                    q as int,
                    u as int,
                    opt_int(po),
                    opt_int(dl),
                    opt_int(st),
                ).0,
            ),
        },
{
    let row = &rows[k];
    let sku = cell(row, s);
    let qs = cell(row, q);
    let us = cell(row, u);
    let qn = number_cell(qs.as_str());
    let un = number_cell(us.as_str());
    let ghost qv = number_or_zero(cell_text(row@, q as int));
    let ghost uv = number_or_zero(cell_text(row@, u as int));
    let upc = units_per_case(sku.as_str());
    let m: i128 = if upc == 6 { 2 } else { 1 };
    match line_figures(qn, un, m, m, Ghost(qv), Ghost(uv)) {
        None => None,
        Some((x, y, z)) => {
            let po_text = opt_cell_of(row, po);
            assert(rows@.len() == rows.len());
            let ship_to = po_state_of(rows, k + 1, po, st, &po_text);
            let d = PoDetailRow { po: po_text, date: opt_cell_of(row, dl), ship_to, qty: y, total: z };
            let line = Line { key: sku, title: String::new(), qty: x, cases: y, total: z };
            Some((line, d))
        },
    }
}

fn iherb_entries_of(
    rows: &Vec<Vec<String>>,
    s: usize,
    q: usize,
    u: usize,
    po: Option<usize>,
    dl: Option<usize>,
    st: Option<usize>,
) -> (r: Option<(Vec<Line>, Vec<PoDetailRow>)>)
    ensures
        match r {
            Some(x) => holds_each(
                x.0@,
                x.1@,
                iherb_entries(rows@, s as int, q as int, u as int, opt_int(po), opt_int(dl), opt_int(st)),
            ),
            None => !lines_in_range(
                entry_lines(iherb_entries(rows@, s as int, q as int, u as int, opt_int(po), opt_int(dl), opt_int(st))),
            ),
        },
{
    let ghost cols = (s as int, q as int, u as int, opt_int(po), opt_int(dl), opt_int(st));
    let mut lines: Vec<Line> = Vec::new();
    let mut ds: Vec<PoDetailRow> = Vec::new();
    let mut bad = false;
    let mut i: usize = 0;
    assert(rows@.take(0) =~= Seq::<Vec<String>>::empty());
    assert(line_views(lines@) =~= Seq::<LineView>::empty());
    assert(detail_views(ds@) =~= Seq::<DetailView>::empty());
    assert(entry_lines(Seq::<Entry>::empty()) =~= Seq::<LineView>::empty());
    assert(entry_details(Seq::<Entry>::empty()) =~= Seq::<DetailView>::empty());
    while i < rows.len()
        invariant
            i <= rows@.len(),
            cols == (s as int, q as int, u as int, opt_int(po), opt_int(dl), opt_int(st)),
            !bad ==> holds_each(
                lines@,
                ds@,
                iherb_entries(rows@.take(i as int), cols.0, cols.1, cols.2, cols.3, cols.4, cols.5),
            ),
            bad ==> !lines_in_range(
                entry_lines(iherb_entries(rows@.take(i as int), cols.0, cols.1, cols.2, cols.3, cols.4, cols.5)),
            ),
        decreases rows@.len() - i,
    {
        assert(rows@.take(i + 1).drop_last() =~= rows@.take(i as int));
        assert(rows@.take(i + 1).last() == rows@[i as int]);
        let ghost es = iherb_entries(rows@.take(i as int), cols.0, cols.1, cols.2, cols.3, cols.4, cols.5);
        proof {
            lemma_mass_nonneg(entry_lines(es));
        }
        let sku = cell(&rows[i], s);
        if !missing_sku(sku.as_str()) {
            let ghost e = iherb_entry(rows@.take(i + 1), rows@[i as int]@, cols.0, cols.1, cols.2, cols.3, cols.4, cols.5);
            assert(entry_lines(es.push(e)) =~= entry_lines(es).push(e.0));
            assert(entry_lines(es).push(e.0).drop_last() =~= entry_lines(es));
            assert(entry_details(es.push(e)) =~= entry_details(es).push(e.1));
            let eo = iherb_entry_of(rows, i, s, q, u, po, dl, st);
            if !bad {
                match eo {
                    Some((l, d)) => {
                        let ghost lb = lines@;
                        let ghost db = ds@;
                        lines.push(l);
                        ds.push(d);
                        assert(line_views(lines@) =~= line_views(lb).push(e.0));
                        assert(detail_views(ds@) =~= detail_views(db).push(e.1));
                    },
                    None => {
                        bad = true;
                    },
                }
            }
        }
        i = i + 1;
    }
    assert(rows@.take(rows@.len() as int) =~= rows@);
    if bad {
        None
    } else {
        Some((lines, ds))
    }
}

/// The columns read from each Amazon PO of the breakdown, or the first one missing.
pub open spec fn amazon_bt_columns(h: Seq<String>) -> Result<(int, int, int), Missing> {
    match required(h, "ASIN"@, Missing::Asin) {
        Err(m) => Err(m),
        Ok(a) => match required(h, "Quantity Requested"@, Missing::Qty) {
            Err(m) => Err(m),
            Ok(q) => match required(h, "Case Cost"@, Missing::CaseCost) {
                Err(m) => Err(m),
                Ok(c) => Ok((a, q, c)),
            },
        },
    }
}

/// The columns read from each iHerb PO of the breakdown, or the first one missing.
pub open spec fn iherb_bt_columns(h: Seq<String>) -> Result<(int, int, int), Missing> {
    match required(h, "Buyers Catalog or Stock Keeping #"@, Missing::Sku) {
        Err(m) => Err(m),
        Ok(s) => match required(h, "Qty Ordered"@, Missing::Qty) {
            Err(m) => Err(m),
            Ok(q) => match required(h, "Unit Price"@, Missing::UnitPrice) {
                Err(m) => Err(m),
                Ok(u) => Ok((s, q, u)),
            },
        },
    }
}

/// The entries of one Amazon PO, or why it cannot be read.
#[verifier::opaque]
pub open spec fn amazon_bt_file(f: Result<Table, PoError>) -> Result<Seq<Entry>, PoError> {
    match f {
        Err(e) => Err(e),
        Ok(t) => match amazon_bt_columns(t.headers@) {
            Err(m) => Err(PoError::MissingColumn(m)),
            Ok((a, q, c)) => Ok(
                amazon_entries(
                    t.rows@,
                    a,
                    q,
                    c,
                    column_of(t.headers@, "PO"@),
                    column_of(t.headers@, "Expected date"@),
                    column_of(t.headers@, "Ship to location"@),
                ),
            ),
        },
    }
}

/// The entries of one iHerb PO, or why it cannot be read.
#[verifier::opaque]
pub open spec fn iherb_bt_file(f: Result<Table, PoError>) -> Result<Seq<Entry>, PoError> {
    match f {
        Err(e) => Err(e),
        Ok(t) => match iherb_bt_columns(t.headers@) {
            Err(m) => Err(PoError::MissingColumn(m)),
            Ok((s, q, u)) => Ok(
                iherb_entries(
                    t.rows@,
                    s,
                    q,
                    u,
                    column_of(t.headers@, "PO Number"@),
                    column_of(t.headers@, "Requested Delivery Date"@),
                    column_of(t.headers@, "Ship To State"@),
                ),
            ),
        },
    }
}

/// The entries of all files, in file order, or the first failure.
pub open spec fn bt_files(files: Seq<Result<Table, PoError>>, amazon: bool) -> Result<
    Seq<Entry>,
    PoError,
>
    decreases files.len(),
{
    if files.len() == 0 {
        Ok(Seq::empty())
    } else {
        match bt_files(files.drop_last(), amazon) {
            Err(e) => Err(e),
            Ok(prev) => match (if amazon {
                amazon_bt_file(files.last())
            } else {
                iherb_bt_file(files.last())
            }) {
                Err(e) => Err(e),
                Ok(es) => Ok(prev + es),
            },
        }
    }
}

fn bt_one_file(f: &Result<Table, PoError>, amazon: bool) -> (r: Result<
    Option<(Vec<Line>, Vec<PoDetailRow>)>,
    PoError,
>)
    ensures
        match (if amazon {
            amazon_bt_file(*f)
        } else {
            iherb_bt_file(*f)
        }) {
            Err(e) => r == Err::<Option<(Vec<Line>, Vec<PoDetailRow>)>, PoError>(e),
            Ok(es) => match r {
                Ok(Some((ls, ds))) => holds_each(ls@, ds@, es),
                Ok(None) => !lines_in_range(entry_lines(es)),
                Err(_) => false,
            },
        },
{
    reveal(amazon_bt_file);
    reveal(iherb_bt_file);
    match f {
        Err(e) => Err(e.duplicate()),
        Ok(t) => {
            if amazon {
                let a = need_col(&t.headers, "ASIN", Missing::Asin)?;
                let q = need_col(&t.headers, "Quantity Requested", Missing::Qty)?;
                let c = need_col(&t.headers, "Case Cost", Missing::CaseCost)?;
                let po = col(&t.headers, "PO");
                let ex = col(&t.headers, "Expected date");
                let sh = col(&t.headers, "Ship to location");
                Ok(amazon_entries_of(&t.rows, a, q, c, po, ex, sh))
            } else {
                let s = need_col(&t.headers, "Buyers Catalog or Stock Keeping #", Missing::Sku)?;
                let q = need_col(&t.headers, "Qty Ordered", Missing::Qty)?;
                let u = need_col(&t.headers, "Unit Price", Missing::UnitPrice)?;
                let po = col(&t.headers, "PO Number");
                let dl = col(&t.headers, "Requested Delivery Date");
                let st = col(&t.headers, "Ship To State");
                Ok(iherb_entries_of(&t.rows, s, q, u, po, dl, st))
            }
        },
    }
}

proof fn lemma_bt_error_persists(files: Seq<Result<Table, PoError>>, amazon: bool, k: int)
    requires
        0 <= k <= files.len(),
        bt_files(files.take(k), amazon) is Err,
    ensures
        bt_files(files, amazon) == bt_files(files.take(k), amazon),
    decreases files.len() - k,
{
    if k < files.len() {
        assert(files.take(k + 1).drop_last() =~= files.take(k));
        lemma_bt_error_persists(files, amazon, k + 1);
    } else {
        assert(files.take(k) =~= files);
    }
}

/// Collects the entries of several POs of one platform, in order; `Ok(None)`
/// when the magnitudes of their figures add up to more than `NUMBER_BOUND`.
fn bt_entries(files: &Vec<Result<Table, PoError>>, amazon: bool) -> (r: Result<
    Option<(Vec<Line>, Vec<PoDetailRow>)>,
    PoError,
>)
    ensures
        match bt_files(files@, amazon) {
            Err(e) => r == Err::<Option<(Vec<Line>, Vec<PoDetailRow>)>, PoError>(e),
            Ok(es) => if lines_in_range(entry_lines(es)) {
                r matches Ok(Some((ls, ds))) && holds_entries(ls@, ds@, es)
            } else {
                r == Ok::<Option<(Vec<Line>, Vec<PoDetailRow>)>, PoError>(None)
            },
        },
{
    let mut lines: Vec<Line> = Vec::new();
    let mut ds: Vec<PoDetailRow> = Vec::new();
    let mut bad = false;
    let mut i: usize = 0;
    assert(files@.take(0) =~= Seq::<Result<Table, PoError>>::empty());
    assert(line_views(lines@) =~= Seq::<LineView>::empty());
    assert(detail_views(ds@) =~= Seq::<DetailView>::empty());
    assert(entry_lines(Seq::<Entry>::empty()) =~= Seq::<LineView>::empty());
    assert(entry_details(Seq::<Entry>::empty()) =~= Seq::<DetailView>::empty());
    while i < files.len()
        invariant
            i <= files@.len(),
            bt_files(files@.take(i as int), amazon) is Ok,
            !bad ==> holds_each(lines@, ds@, bt_files(files@.take(i as int), amazon)->Ok_0),
            bad ==> !lines_in_range(entry_lines(bt_files(files@.take(i as int), amazon)->Ok_0)),
        decreases files@.len() - i,
    {
        assert(files@.take(i + 1).drop_last() =~= files@.take(i as int));
        assert(files@.take(i + 1).last() == files@[i as int]);
        let ghost es = bt_files(files@.take(i as int), amazon)->Ok_0;
        match bt_one_file(&files[i], amazon) {
            Err(e) => {
                proof {
                    lemma_bt_error_persists(files@, amazon, i as int + 1);
                }
                return Err(e);
            },
            Ok(found) => {
                let ghost es2 = if amazon {
                    amazon_bt_file(files@[i as int])
                } else {
                    iherb_bt_file(files@[i as int])
                }->Ok_0;
                assert(entry_lines(es + es2) =~= entry_lines(es) + entry_lines(es2));
                assert(entry_details(es + es2) =~= entry_details(es) + entry_details(es2));
                proof {
                    lemma_mass_append(entry_lines(es), entry_lines(es2));
                    lemma_mass_nonneg(entry_lines(es));
                    lemma_mass_nonneg(entry_lines(es2));
                }
                match found {
                    Some((more_l, more_d)) => {
                        if !bad {
                            let mut more_l = more_l;
                            let mut more_d = more_d;
                            let ghost lb = lines@;
                            let ghost db = detail_views(ds@);
                            let ghost lm = more_l@;
                            let ghost dm = detail_views(more_d@);
                            lines.append(&mut more_l);
                            ds.append(&mut more_d);
                            assert(line_views(lines@) =~= line_views(lb) + line_views(lm));
                            assert(detail_views(ds@) =~= db + dm);
                            assert forall|j: int| 0 <= j < lines@.len() implies line_in_range(#[trigger] lines@[j]@) by {
                                if j >= lb.len() {
                                    assert(lines@[j] == lm[j - lb.len()]);
                                }
                            }
                        }
                    },
                    None => {
                        bad = true;
                    },
                }
            },
        }
        i = i + 1;
    }
    assert(files@.take(files@.len() as int) =~= files@);
    if bad {
        Ok(None)
    } else if lines_fit(&lines) {
        Ok(Some((lines, ds)))
    } else {
        Ok(None)
    }
}

/// The detail rows of the entries with key `k`, in order.
pub open spec fn details_for(es: Seq<Entry>, k: Seq<char>) -> Seq<DetailView>
    decreases es.len(),
{
    if es.len() == 0 {
        Seq::empty()
    } else {
        let p = details_for(es.drop_last(), k);
        if es.last().0.key == k {
            p.push(es.last().1)
        } else {
            p
        }
    }
}

/// The total cost of the entries with key `k`.
pub open spec fn amount_of(es: Seq<Entry>, k: Seq<char>) -> int {
    total_of(entry_lines(es), k)
}

/// The section a mapping entry would give: the Amazon total of its ASIN (if it
/// has one) plus the iHerb total of its SKU, and the PO lines of both.
pub open spec fn mapping_section(m: MappingView, ae: Seq<Entry>, ie: Seq<Entry>) -> SectionView {
    let at = if m.asin.len() > 0 {
        amount_of(ae, m.asin)
    } else {
        0
    };
    SectionView {
        id: if m.asin.len() > 0 {
            m.asin
        } else {
            m.sku
        },
        name: m.name,
        combined_total: at + amount_of(ie, m.sku),
        amz_rows: details_for(ae, m.asin),
        iherb_rows: details_for(ie, m.sku),
    }
}

/// The sections of the mapping entries whose combined total reaches the threshold.
pub open spec fn mapped_sections(ms: Seq<MappingView>, ae: Seq<Entry>, ie: Seq<Entry>) -> Seq<
    SectionView,
>
    decreases ms.len(),
{
    if ms.len() == 0 {
        Seq::empty()
    } else {
        let p = mapped_sections(ms.drop_last(), ae, ie);
        let sec = mapping_section(ms.last(), ae, ie);
        if sec.combined_total >= BIG_TICKET_THRESHOLD {
            p.push(sec)
        } else {
            p
        }
    }
}

/// Some mapping entry has the (non-empty) ASIN `k`.
pub open spec fn asin_mapped(ms: Seq<MappingView>, k: Seq<char>) -> bool {
    exists|j: int| 0 <= j < ms.len() && (#[trigger] ms[j]).asin.len() > 0 && ms[j].asin == k
}

/// Some mapping entry has the SKU `k`.
pub open spec fn sku_mapped(ms: Seq<MappingView>, k: Seq<char>) -> bool {
    exists|j: int| 0 <= j < ms.len() && (#[trigger] ms[j]).sku == k
}

pub open spec fn amazon_section(ae: Seq<Entry>, k: Seq<char>) -> SectionView {
    SectionView {
        id: k,
        name: k,
        combined_total: amount_of(ae, k),
        amz_rows: details_for(ae, k),
        iherb_rows: Seq::empty(),
    }
}

pub open spec fn iherb_section(ie: Seq<Entry>, k: Seq<char>) -> SectionView {
    SectionView {
        id: k,
        name: k,
        combined_total: amount_of(ie, k),
        amz_rows: Seq::empty(),
        iherb_rows: details_for(ie, k),
    }
}

/// Sections of the unmapped ASINs of `ks` whose Amazon total reaches the threshold.
pub open spec fn amazon_only_sections(ks: Seq<Seq<char>>, ms: Seq<MappingView>, ae: Seq<Entry>) -> Seq<
    SectionView,
>
    decreases ks.len(),
{
    if ks.len() == 0 {
        Seq::empty()
    } else {
        let p = amazon_only_sections(ks.drop_last(), ms, ae);
        if !asin_mapped(ms, ks.last()) && amount_of(ae, ks.last()) >= BIG_TICKET_THRESHOLD {
            p.push(amazon_section(ae, ks.last()))
        } else {
            p
        }
    }
}

/// Sections of the unmapped SKUs of `ks` whose iHerb total reaches the threshold.
pub open spec fn iherb_only_sections(ks: Seq<Seq<char>>, ms: Seq<MappingView>, ie: Seq<Entry>) -> Seq<
    SectionView,
>
    decreases ks.len(),
{
    if ks.len() == 0 {
        Seq::empty()
    } else {
        let p = iherb_only_sections(ks.drop_last(), ms, ie);
        if !sku_mapped(ms, ks.last()) && amount_of(ie, ks.last()) >= BIG_TICKET_THRESHOLD {
            p.push(iherb_section(ie, ks.last()))
        } else {
            p
        }
    }
}

/// The big-ticket sections before ordering: mapped products, then unmapped ASINs,
/// then unmapped SKUs.
pub open spec fn bt_sections(ms: Seq<MappingView>, ae: Seq<Entry>, ie: Seq<Entry>) -> Seq<SectionView> {
    mapped_sections(ms, ae, ie) + amazon_only_sections(
        distinct_keys(line_keys(entry_lines(ae))),
        ms,
        ae,
    ) + iherb_only_sections(distinct_keys(line_keys(entry_lines(ie))), ms, ie)
}

pub open spec fn section_totals(ss: Seq<SectionView>) -> Seq<int> {
    ss.map_values(|s: SectionView| s.combined_total)
}

/// `r` holds the sections `u` ordered by decreasing combined total, ties in the
/// order of `u`.
pub open spec fn is_breakdown(r: Seq<BigTicketSection>, u: Seq<SectionView>) -> bool {
    exists|order: Seq<usize>|
        #![trigger is_desc_order(section_totals(u), order)]
        is_desc_order(section_totals(u), order) && section_views(r) == arranged(u, order)
}

/// The detail rows of the entries with key `key`.
fn details_with(lines: &Vec<Line>, ds: &Vec<PoDetailRow>, key: &String, Ghost(es): Ghost<Seq<Entry>>) -> (r:
    Vec<PoDetailRow>)
    requires
        holds_entries(lines@, ds@, es),
    ensures
        detail_views(r@) == details_for(es, key@),
{
    let mut r: Vec<PoDetailRow> = Vec::new();
    let mut i: usize = 0;
    assert(es.take(0) =~= Seq::<Entry>::empty());
    assert(detail_views(r@) =~= Seq::<DetailView>::empty());
    assert(lines@.len() == es.len() && ds@.len() == es.len()) by {
        assert(line_views(lines@).len() == entry_lines(es).len());
        assert(detail_views(ds@).len() == entry_details(es).len());
    }
    while i < lines.len()
        invariant
            holds_entries(lines@, ds@, es),
            lines@.len() == es.len(),
            ds@.len() == es.len(),
            i <= lines@.len(),
            detail_views(r@) == details_for(es.take(i as int), key@),
        decreases lines@.len() - i,
    {
        assert(es.take(i + 1).drop_last() =~= es.take(i as int));
        assert(es.take(i + 1).last() == es[i as int]);
        assert(line_views(lines@)[i as int] == entry_lines(es)[i as int]);
        assert(detail_views(ds@)[i as int] == entry_details(es)[i as int]);
        if lines[i].key == *key {
            let ghost before = r@;
            r.push(ds[i].copy());
            assert(detail_views(r@) =~= detail_views(before).push(es[i as int].1));
        }
        i = i + 1;
    }
    assert(es.take(es.len() as int) =~= es);
    r
}

proof fn lemma_mapped_step(ms: Seq<MappingView>, j: int)
    requires
        0 <= j < ms.len(),
    ensures
        forall|k: Seq<char>|
            asin_mapped(ms.take(j + 1), k) == (asin_mapped(ms.take(j), k) || (ms[j].asin.len() > 0
                && ms[j].asin == k)),
        forall|k: Seq<char>|
            sku_mapped(ms.take(j + 1), k) == (sku_mapped(ms.take(j), k) || ms[j].sku == k),
{
    let p = ms.take(j);
    let q = ms.take(j + 1);
    assert forall|k: Seq<char>|
        asin_mapped(q, k) == (asin_mapped(p, k) || (ms[j].asin.len() > 0 && ms[j].asin == k)) by {
        if asin_mapped(q, k) {
            let x = choose|x: int| 0 <= x < q.len() && (#[trigger] q[x]).asin.len() > 0 && q[x].asin == k;
            if x < j {
                assert(p[x] == q[x]);
            }
        }
        if asin_mapped(p, k) {
            let x = choose|x: int| 0 <= x < p.len() && (#[trigger] p[x]).asin.len() > 0 && p[x].asin == k;
            assert(q[x] == p[x]);
        }
        if ms[j].asin.len() > 0 && ms[j].asin == k {
            assert(q[j] == ms[j]);
        }
    }
    assert forall|k: Seq<char>| sku_mapped(q, k) == (sku_mapped(p, k) || ms[j].sku == k) by {
        if sku_mapped(q, k) {
            let x = choose|x: int| 0 <= x < q.len() && (#[trigger] q[x]).sku == k;
            if x < j {
                assert(p[x] == q[x]);
            }
        }
        if sku_mapped(p, k) {
            let x = choose|x: int| 0 <= x < p.len() && (#[trigger] p[x]).sku == k;
            assert(q[x] == p[x]);
        }
        if ms[j].sku == k {
            assert(q[j] == ms[j]);
        }
    }
}

/// The total of the entries with key `key`, looked up through the groups.
fn amount_with(
    idx: &IndexMap<String, ()>,
    gs: &Vec<Group>,
    key: &String,
    Ghost(es): Ghost<Seq<Entry>>,
) -> (r: (i128, Option<usize>))
    requires
        indexed(gs@, *idx, entry_lines(es)),
    ensures
        r.0 == amount_of(es, key@),
        within(r.0 as int, mass(entry_lines(es))),
        match r.1 {
            Some(g) => g < gs@.len() && distinct_keys(line_keys(entry_lines(es)))[g as int] == key@,
            None => !has_key(entry_lines(es), key@),
        },
{
    proof {
        lemma_mass_nonneg(entry_lines(es));
    }
    match find_group(idx, gs, key, Ghost(entry_lines(es))) {
        Some(g) => (gs[g].total, Some(g)),
        None => {
            proof {
                crate::group::lemma_absent_sums(entry_lines(es), key@);
            }
            (0, None)
        },
    }
}

/// The entries of one platform: lines, detail rows, their groups and key index.
pub(crate) struct Side {
    pub lines: Vec<Line>,
    pub details: Vec<PoDetailRow>,
    pub groups: Vec<Group>,
    pub index: IndexMap<String, ()>,
}

pub(crate) open spec fn side_holds(sd: Side, es: Seq<Entry>) -> bool {
    &&& holds_entries(sd.lines@, sd.details@, es)
    &&& indexed(sd.groups@, sd.index, entry_lines(es))
}

fn section_of_mapping(m: &Mapping, a: &Side, i: &Side, Ghost(ae): Ghost<Seq<Entry>>, Ghost(ie): Ghost<Seq<Entry>>) -> (r: (BigTicketSection, Option<usize>, Option<usize>))
    requires
        side_holds(*a, ae),
        side_holds(*i, ie),
    ensures
        r.0@ == mapping_section(m@, ae, ie),
        match r.1 {
            Some(g) => m.asin@.len() > 0 && g < a.groups@.len() && distinct_keys(line_keys(entry_lines(ae)))[g as int] == m.asin@,
            None => m.asin@.len() == 0 || !has_key(entry_lines(ae), m.asin@),
        },
        match r.2 {
            Some(g) => g < i.groups@.len() && distinct_keys(line_keys(entry_lines(ie)))[g as int] == m.sku@,
            None => !has_key(entry_lines(ie), m.sku@),
        },
{
    let (at, ga) = if m.asin.unicode_len() > 0 {
        amount_with(&a.index, &a.groups, &m.asin, Ghost(ae))
    } else {
        (0, None)
    };
    let (it, gi) = amount_with(&i.index, &i.groups, &m.sku, Ghost(ie));
    let id = if m.asin.unicode_len() > 0 {
        m.asin.clone()
    } else {
        m.sku.clone()
    };
    let sec = BigTicketSection {
        id,
        name: m.name.clone(),
        combined_total: at + it,
        amz_rows: details_with(&a.lines, &a.details, &m.asin, Ghost(ae)),
        iherb_rows: details_with(&i.lines, &i.details, &m.sku, Ghost(ie)),
    };
    (sec, ga, gi)
}

fn mapped_sections_part(ms: &Vec<Mapping>, a: &Side, i: &Side, Ghost(ae): Ghost<Seq<Entry>>, Ghost(ie): Ghost<Seq<Entry>>) -> (res: (Vec<BigTicketSection>, Vec<bool>, Vec<bool>))
    requires
        side_holds(*a, ae),
        side_holds(*i, ie),
    ensures
        section_views(res.0@) == mapped_sections(mapping_views(ms@), ae, ie),
        res.1@.len() == a.groups@.len(),
        res.2@.len() == i.groups@.len(),
        forall|g: int|
            0 <= g < a.groups@.len() ==> #[trigger] res.1@[g] == asin_mapped(
                mapping_views(ms@),
                distinct_keys(line_keys(entry_lines(ae)))[g],
            ),
        forall|g: int|
            0 <= g < i.groups@.len() ==> #[trigger] res.2@[g] == sku_mapped(
                mapping_views(ms@),
                distinct_keys(line_keys(entry_lines(ie)))[g],
            ),
{
    let ghost msv = mapping_views(ms@);
    let ghost adk = distinct_keys(line_keys(entry_lines(ae)));
    let ghost idk = distinct_keys(line_keys(entry_lines(ie)));
    proof {
        lemma_distinct_keys(line_keys(entry_lines(ae)));
        lemma_distinct_keys(line_keys(entry_lines(ie)));
    }
    let mut secs: Vec<BigTicketSection> = Vec::new();
    let mut ua = false_flags(a.groups.len());
    let mut ui = false_flags(i.groups.len());
    let mut j: usize = 0;
    assert(msv.take(0) =~= Seq::<MappingView>::empty());
    assert(section_views(secs@) =~= Seq::<SectionView>::empty());
    while j < ms.len()
        invariant
            side_holds(*a, ae),
            side_holds(*i, ie),
            msv == mapping_views(ms@),
            adk == distinct_keys(line_keys(entry_lines(ae))),
            idk == distinct_keys(line_keys(entry_lines(ie))),
            adk.no_duplicates(),
            idk.no_duplicates(),
            j <= ms@.len(),
            section_views(secs@) == mapped_sections(msv.take(j as int), ae, ie),
            ua@.len() == a.groups@.len(),
            ui@.len() == i.groups@.len(),
            forall|g: int|
                0 <= g < a.groups@.len() ==> #[trigger] ua@[g] == asin_mapped(msv.take(j as int), adk[g]),
            forall|g: int|
                0 <= g < i.groups@.len() ==> #[trigger] ui@[g] == sku_mapped(msv.take(j as int), idk[g]),
        decreases ms@.len() - j,
    {
        let m = &ms[j];
        proof {
            lemma_mapped_step(msv, j as int);
            assert(msv.take(j + 1).drop_last() =~= msv.take(j as int));
            assert(msv[j as int] == m@);
        }
        let (sec, ga, gi) = section_of_mapping(m, a, i, Ghost(ae), Ghost(ie));
        if sec.combined_total >= BIG_TICKET_THRESHOLD {
            let ghost before = secs@;
            secs.push(sec);
            assert(section_views(secs@) =~= section_views(before).push(mapping_section(m@, ae, ie)));
        }
        match ga {
            Some(g) => {
                ua[g] = true;
            },
            None => {},
        }
        match gi {
            Some(g) => {
                ui[g] = true;
            },
            None => {},
        }
        assert forall|g: int| 0 <= g < a.groups@.len() implies #[trigger] ua@[g] == asin_mapped(
            msv.take(j + 1),
            adk[g],
        ) by {
            match ga {
                Some(x) => {
                    if adk[g] == m.asin@ {
                        assert(adk[x as int] == adk[g]);
                    }
                },
                None => {
                    if m.asin@.len() > 0 && m.asin@ == adk[g] {
                        lemma_distinct_keys(line_keys(entry_lines(ae)));
                        assert(adk.contains(adk[g]));
                    }
                },
            }
        }
        assert forall|g: int| 0 <= g < i.groups@.len() implies #[trigger] ui@[g] == sku_mapped(
            msv.take(j + 1),
            idk[g],
        ) by {
            match gi {
                Some(x) => {
                    if idk[g] == m.sku@ {
                        assert(idk[x as int] == idk[g]);
                    }
                },
                None => {
                    if m.sku@ == idk[g] {
                        lemma_distinct_keys(line_keys(entry_lines(ie)));
                        assert(idk.contains(idk[g]));
                    }
                },
            }
        }
        j = j + 1;
    }
    assert(msv.take(ms@.len() as int) =~= msv);
    (secs, ua, ui)
}

/// Sections of the groups of one platform that no mapping entry names and whose
/// total reaches the threshold.
fn unmapped_sections_part(
    sd: &Side,
    used: &Vec<bool>,
    amazon: bool,
    Ghost(ms): Ghost<Seq<MappingView>>,
    Ghost(es): Ghost<Seq<Entry>>,
) -> (r: Vec<BigTicketSection>)
    requires
        side_holds(*sd, es),
        used@.len() == sd.groups@.len(),
        forall|g: int|
            0 <= g < sd.groups@.len() ==> #[trigger] used@[g] == (if amazon {
                asin_mapped(ms, distinct_keys(line_keys(entry_lines(es)))[g])
            } else {
                sku_mapped(ms, distinct_keys(line_keys(entry_lines(es)))[g])
            }),
    ensures
        section_views(r@) == (if amazon {
            amazon_only_sections(distinct_keys(line_keys(entry_lines(es))), ms, es)
        } else {
            iherb_only_sections(distinct_keys(line_keys(entry_lines(es))), ms, es)
        }),
{
    let ghost dk = distinct_keys(line_keys(entry_lines(es)));
    let mut secs: Vec<BigTicketSection> = Vec::new();
    let mut g: usize = 0;
    assert(dk.take(0) =~= Seq::<Seq<char>>::empty());
    assert(section_views(secs@) =~= Seq::<SectionView>::empty());
    while g < sd.groups.len()
        invariant
            side_holds(*sd, es),
            dk == distinct_keys(line_keys(entry_lines(es))),
            used@.len() == sd.groups@.len(),
            forall|h: int|
                0 <= h < sd.groups@.len() ==> #[trigger] used@[h] == (if amazon {
                    asin_mapped(ms, dk[h])
                } else {
                    sku_mapped(ms, dk[h])
                }),
            g <= sd.groups@.len(),
            section_views(secs@) == (if amazon {
                amazon_only_sections(dk.take(g as int), ms, es)
            } else {
                iherb_only_sections(dk.take(g as int), ms, es)
            }),
        decreases sd.groups@.len() - g,
    {
        assert(dk.take(g + 1).drop_last() =~= dk.take(g as int));
        assert(dk.take(g + 1).last() == dk[g as int]);
        let grp = &sd.groups[g];
        if !used[g] && grp.total >= BIG_TICKET_THRESHOLD {
            let ghost before = secs@;
            let rows = details_with(&sd.lines, &sd.details, &grp.key, Ghost(es));
            let sec = if amazon {
                BigTicketSection {
                    id: grp.key.clone(),
                    name: grp.key.clone(),
                    combined_total: grp.total,
                    amz_rows: rows,
                    iherb_rows: Vec::new(),
                }
            } else {
                BigTicketSection {
                    id: grp.key.clone(),
                    name: grp.key.clone(),
                    combined_total: grp.total,
                    amz_rows: Vec::new(),
                    iherb_rows: rows,
                }
            };
            secs.push(sec);
            assert(detail_views(Seq::<PoDetailRow>::empty()) =~= Seq::<DetailView>::empty());
            assert(section_views(secs@) =~= section_views(before).push(
                if amazon {
                    amazon_section(es, dk[g as int])
                } else {
                    iherb_section(es, dk[g as int])
                },
            ));
        }
        g = g + 1;
    }
    assert(dk.take(sd.groups@.len() as int) =~= dk);
    secs
}

/// Orders sections by decreasing combined total, ties keeping their order.
fn order_sections(secs: Vec<BigTicketSection>) -> (r: Vec<BigTicketSection>)
    ensures
        is_breakdown(r@, section_views(secs@)),
{
    let ghost u = section_views(secs@);
    let mut keys: Vec<i128> = Vec::new();
    let mut i: usize = 0;
    while i < secs.len()
        invariant
            i <= secs@.len(),
            keys@.len() == i,
            forall|h: int| 0 <= h < i ==> #[trigger] keys@[h] == secs@[h].combined_total,
        decreases secs@.len() - i,
    {
        keys.push(secs[i].combined_total);
        i = i + 1;
    }
    assert(ints(keys@) =~= section_totals(u));
    let order = order_desc(&keys);
    let mut out: Vec<BigTicketSection> = Vec::new();
    let mut a: usize = 0;
    while a < order.len()
        invariant
            u == section_views(secs@),
            is_desc_order(section_totals(u), order@),
            a <= order@.len(),
            out@.len() == a,
            forall|b: int| 0 <= b < a ==> (#[trigger] out@[b])@ == u[order@[b] as int],
        decreases order@.len() - a,
    {
        let sec = &secs[order[a]];
        out.push(
            BigTicketSection {
                id: sec.id.clone(),
                name: sec.name.clone(),
                combined_total: sec.combined_total,
                amz_rows: copy_details(&sec.amz_rows),
                iherb_rows: copy_details(&sec.iherb_rows),
            },
        );
        a = a + 1;
    }
    assert(section_views(out@) =~= arranged(u, order@));
    out
}

fn copy_details(ds: &Vec<PoDetailRow>) -> (r: Vec<PoDetailRow>)
    ensures
        detail_views(r@) == detail_views(ds@),
{
    let mut r: Vec<PoDetailRow> = Vec::new();
    let mut i: usize = 0;
    while i < ds.len()
        invariant
            i <= ds@.len(),
            r@.len() == i,
            forall|h: int| 0 <= h < i ==> (#[trigger] r@[h])@ == ds@[h]@,
        decreases ds@.len() - i,
    {
        r.push(ds[i].copy());
        i = i + 1;
    }
    assert(detail_views(r@) =~= detail_views(ds@));
    r
}

fn side_of(lines: Vec<Line>, details: Vec<PoDetailRow>, Ghost(es): Ghost<Seq<Entry>>) -> (sd: Side)
    requires
        holds_entries(lines@, details@, es),
    ensures
        side_holds(sd, es),
{
    let (groups, index) = group_lines_indexed(&lines);
    assert(line_views(lines@).len() == lines@.len());
    assert(entry_lines(es).len() == lines.len());
    assert(indexed(groups@, index, entry_lines(es)));
    Side { lines, details, groups, index }
}

/// What the big-ticket breakdown of `amz` and `ih` POs through `mapping` is:
/// the first failure among the mapping file, the Amazon files and the iHerb
/// files, else the ordered sections of `bt_sections`.
pub open spec fn bigticket_spec(
    amz: Seq<Result<Table, PoError>>,
    ih: Seq<Result<Table, PoError>>,
    mapping: Result<Table, PoError>,
    r: Result<Vec<BigTicketSection>, PoError>,
) -> bool {
    match mapping {
        Err(e) => r == Err::<Vec<BigTicketSection>, PoError>(e),
        Ok(mt) => match mapping_columns(mt.headers@) {
            Err(m) => r == Err::<Vec<BigTicketSection>, PoError>(PoError::MissingColumn(m)),
            Ok((s, a, n)) => {
                let ms = mapping_entries(mt.rows@, s, a, n, column_of(mt.headers@, "Pack?"@));
                match bt_files(amz, true) {
                    Err(e) => r == Err::<Vec<BigTicketSection>, PoError>(e),
                    Ok(ae) => match bt_files(ih, false) {
                        Err(e) => r == Err::<Vec<BigTicketSection>, PoError>(e),
                        Ok(ie) => if lines_in_range(entry_lines(ae)) && lines_in_range(entry_lines(ie)) {
                            r matches Ok(secs) && is_breakdown(secs@, bt_sections(ms, ae, ie))
                        } else {
                            r == Err::<Vec<BigTicketSection>, PoError>(PoError::TotalTooLarge)
                        },
                    },
                }
            },
        },
    }
}

fn breakdown_of(ms: &Vec<Mapping>, a: &Side, i: &Side, Ghost(ae): Ghost<Seq<Entry>>, Ghost(ie): Ghost<Seq<Entry>>) -> (r: Vec<BigTicketSection>)
    requires
        side_holds(*a, ae),
        side_holds(*i, ie),
    ensures
        is_breakdown(r@, bt_sections(mapping_views(ms@), ae, ie)),
{
    let ghost msv = mapping_views(ms@);
    let (mut secs, ua, ui) = mapped_sections_part(ms, a, i, Ghost(ae), Ghost(ie));
    let mut more_a = unmapped_sections_part(a, &ua, true, Ghost(msv), Ghost(ae));
    let mut more_i = unmapped_sections_part(i, &ui, false, Ghost(msv), Ghost(ie));
    let ghost s1 = section_views(secs@);
    let ghost s2 = section_views(more_a@);
    let ghost s3 = section_views(more_i@);
    secs.append(&mut more_a);
    secs.append(&mut more_i);
    assert(section_views(secs@) =~= s1 + s2 + s3);
    order_sections(secs)
}

/// Builds the big-ticket breakdown: the products whose combined Amazon and iHerb
/// total reaches the threshold, with their PO lines, ordered by decreasing total.
pub fn build_bigticket(
    amz: &Vec<Result<Table, PoError>>,
    ih: &Vec<Result<Table, PoError>>,
    mapping: &Result<Table, PoError>,
) -> (r: Result<Vec<BigTicketSection>, PoError>)
    ensures
        bigticket_spec(amz@, ih@, *mapping, r),
{
    let mt = match mapping {
        Ok(t) => t,
        Err(e) => {
            return Err(e.duplicate());
        },
    };
    let ms = load_mapping(mt)?;
    let af = bt_entries(amz, true)?;
    let inf = bt_entries(ih, false)?;
    let ((al, ad), (il, idt)) = match (af, inf) {
        (Some(x), Some(y)) => (x, y),
        _ => {
            return Err(PoError::TotalTooLarge);
        },
    };
    let ghost ae = bt_files(amz@, true)->Ok_0;
    let ghost ie = bt_files(ih@, false)->Ok_0;
    let a = side_of(al, ad, Ghost(ae));
    let i = side_of(il, idt, Ghost(ie));
    Ok(breakdown_of(&ms, &a, &i, Ghost(ae), Ghost(ie)))
}

} // verus!
