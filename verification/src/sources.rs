//! Reading the mapping file and the order lines of several PO files.
use crate::aggregate::{amazon_line, amazon_line_of, iherb_lines, iherb_lines_of, need_col, required};
use crate::group::{
    lemma_mass_append, lemma_mass_nonneg, line_in_range, line_views, lines_fit, lines_in_range, Line, LineView,
};
use crate::rules::is_missing_sku;
use crate::table::{cell, cell_text, Missing, PoError, Table};
use crate::text::{col, column_of, contains_text, has_substring, lowercase_text, lowercased};
use vstd::prelude::*;

verus! {

/// A row of the mapping file: an iHerb SKU, the Amazon ASIN of the same product
/// (empty when it is sold on iHerb only), the product's name, and whether Amazon
/// sells it as a pack.
pub struct Mapping {
    pub sku: String,
    pub asin: String,
    pub name: String,
    pub is_pack: bool,
}

pub struct MappingView {
    pub sku: Seq<char>,
    pub asin: Seq<char>,
    pub name: Seq<char>,
    pub is_pack: bool,
}

impl View for Mapping {
    type V = MappingView;

    open spec fn view(&self) -> MappingView {
        MappingView { sku: self.sku@, asin: self.asin@, name: self.name@, is_pack: self.is_pack }
    }
}

pub open spec fn mapping_views(ms: Seq<Mapping>) -> Seq<MappingView> {
    ms.map_values(|m: Mapping| m@)
}

/// The columns the mapping file must have, or the first one missing.
pub open spec fn mapping_columns(h: Seq<String>) -> Result<(int, int, int), Missing> {
    match required(h, "Buyers Catalog or Stock Keeping #"@, Missing::Sku) {
        Err(m) => Err(m),
        Ok(s) => match required(h, "ASIN"@, Missing::Asin) {
            Err(m) => Err(m),
            Ok(a) => match required(h, "Product Description"@, Missing::ProductDescription) {
                Err(m) => Err(m),
                Ok(n) => Ok((s, a, n)),
            },
        },
    }
}

/// A mapping row is a pack when its `Pack?` cell, in lower case, contains `pack`.
pub open spec fn pack_flag(row: Seq<String>, p: Option<int>) -> bool {
    match p {
        Some(i) => has_substring(lowercased(cell_text(row, i)), "pack"@),
        None => false,
    }
}

pub open spec fn mapping_entry(row: Seq<String>, s: int, a: int, n: int, p: Option<int>) -> MappingView {
    MappingView {
        sku: cell_text(row, s),
        asin: cell_text(row, a),
        name: cell_text(row, n),
        is_pack: pack_flag(row, p),
    }
}

/// The mapping entries of the rows, rows without SKU and ASIN left out.
pub open spec fn mapping_entries(rows: Seq<Vec<String>>, s: int, a: int, n: int, p: Option<int>) -> Seq<
    MappingView,
>
    decreases rows.len(),
{
    if rows.len() == 0 {
        Seq::empty()
    } else {
        let prev = mapping_entries(rows.drop_last(), s, a, n, p);
        let row = rows.last()@;
        if cell_text(row, s).len() == 0 && cell_text(row, a).len() == 0 {
            prev
        } else {
            prev.push(mapping_entry(row, s, a, n, p))
        }
    }
}

/// The mapping entry of one row, or `None` when the row has neither SKU nor ASIN.
fn mapping_of_row(row: &Vec<String>, s: usize, a: usize, n: usize, p: Option<usize>) -> (r: Option<
    Mapping,
>)
    ensures
        match r {
            Some(m) => !(cell_text(row@, s as int).len() == 0 && cell_text(row@, a as int).len()
                == 0) && m@ == mapping_entry(
                row@,
                s as int,
                a as int,
                n as int,
                match p {
                    Some(i) => Some(i as int),
                    None => None,
                },
            ),
            None => cell_text(row@, s as int).len() == 0 && cell_text(row@, a as int).len() == 0,
        },
{
    let sku = cell(row, s);
    let asin = cell(row, a);
    if sku.unicode_len() == 0 && asin.unicode_len() == 0 {
        return None;
    }
    let name = cell(row, n);
    let is_pack = match p {
        Some(pi) => {
            let pack = cell(row, pi);
            let lower = lowercase_text(pack.as_str());
            contains_text(lower.as_str(), "pack")
        },
        None => false,
    };
    Some(Mapping { sku, asin, name, is_pack })
}

/// Reads the mapping file.
pub fn load_mapping(t: &Table) -> (r: Result<Vec<Mapping>, PoError>)
    ensures
        match mapping_columns(t.headers@) {
            Err(m) => r == Err::<Vec<Mapping>, PoError>(PoError::MissingColumn(m)),
            Ok((s, a, n)) => match r {
                Ok(ms) => mapping_views(ms@) == mapping_entries(
                    t.rows@,
                    s,
                    a,
                    n,
                    column_of(t.headers@, "Pack?"@),
                ),
                Err(_) => false,
            },
        },
{
    let s = need_col(&t.headers, "Buyers Catalog or Stock Keeping #", Missing::Sku)?;
    let a = need_col(&t.headers, "ASIN", Missing::Asin)?;
    let n = need_col(&t.headers, "Product Description", Missing::ProductDescription)?;
    let p = col(&t.headers, "Pack?");
    let ghost pg: Option<int> = match p {
        Some(i) => Some(i as int),
        None => None,
    };
    let ms = mapping_rows(&t.rows, s, a, n, p);
    Ok(ms)
}

fn mapping_rows(rows: &Vec<Vec<String>>, s: usize, a: usize, n: usize, p: Option<usize>) -> (ms: Vec<
    Mapping,
>)
    ensures
        mapping_views(ms@) == mapping_entries(
            rows@,
            s as int,
            a as int,
            n as int,
            match p {
                Some(i) => Some(i as int),
                None => None,
            },
        ),
{
    let ghost pg: Option<int> = match p {
        Some(i) => Some(i as int),
        None => None,
    };
    let mut ms: Vec<Mapping> = Vec::new();
    let mut i: usize = 0;
    assert(rows@.take(0) =~= Seq::<Vec<String>>::empty());
    assert(mapping_views(ms@) =~= Seq::<MappingView>::empty());
    while i < rows.len()
        invariant
            i <= rows@.len(),
            pg == (match p {
                Some(i) => Some(i as int),
                None => None::<int>,
            }),
            mapping_views(ms@) == mapping_entries(rows@.take(i as int), s as int, a as int, n as int, pg),
        decreases rows@.len() - i,
    {
        assert(rows@.take(i + 1).drop_last() =~= rows@.take(i as int));
        assert(rows@.take(i + 1).last() == rows@[i as int]);
        match mapping_of_row(&rows[i], s, a, n, p) {
            Some(m) => {
                let ghost before = ms@;
                ms.push(m);
                assert(mapping_views(ms@) =~= mapping_views(before).push(ms@.last()@));
            },
            None => {},
        }
        i = i + 1;
    }
    assert(rows@.take(rows@.len() as int) =~= rows@);
    ms
}

/// The lines of an Amazon PO's rows, rows with an empty ASIN left out.
pub open spec fn asin_lines(rows: Seq<Vec<String>>, a: int, t: int, q: int, c: int) -> Seq<LineView>
    decreases rows.len(),
{
    if rows.len() == 0 {
        Seq::empty()
    } else {
        let p = asin_lines(rows.drop_last(), a, t, q, c);
        let row = rows.last()@;
        if cell_text(row, a).len() == 0 {
            p
        } else {
            p.push(amazon_line(row, a, t, q, c))
        }
    }
}

fn asin_lines_of(rows: &Vec<Vec<String>>, a: usize, t: usize, q: usize, c: usize) -> (r: Option<
    Vec<Line>,
>)
    ensures
        match r {
            Some(lines) => line_views(lines@) == asin_lines(rows@, a as int, t as int, q as int, c as int)
                && forall|j: int| 0 <= j < lines@.len() ==> line_in_range(#[trigger] lines@[j]@),
            None => !lines_in_range(asin_lines(rows@, a as int, t as int, q as int, c as int)),
        },
{
    let mut lines: Vec<Line> = Vec::new();
    let mut bad = false;
    let mut i: usize = 0;
    assert(rows@.take(0) =~= Seq::<Vec<String>>::empty());
    assert(line_views(lines@) =~= Seq::<LineView>::empty());
    while i < rows.len()
        invariant
            i <= rows@.len(),
            !bad ==> forall|j: int| 0 <= j < lines@.len() ==> line_in_range(#[trigger] lines@[j]@),
            !bad ==> line_views(lines@) == asin_lines(rows@.take(i as int), a as int, t as int, q as int, c as int),
            bad ==> !lines_in_range(asin_lines(rows@.take(i as int), a as int, t as int, q as int, c as int)),
        decreases rows@.len() - i,
    {
        let ghost prev = asin_lines(rows@.take(i as int), a as int, t as int, q as int, c as int);
        assert(rows@.take(i + 1).drop_last() =~= rows@.take(i as int));
        assert(rows@.take(i + 1).last() == rows@[i as int]);
        proof {
            lemma_mass_nonneg(prev);
        }
        let asin = cell(&rows[i], a);
        if asin.unicode_len() != 0 {
            let ghost x = amazon_line(rows@[i as int]@, a as int, t as int, q as int, c as int);
            assert(prev.push(x).drop_last() =~= prev);
            let lo = amazon_line_of(&rows[i], a, t, q, c);
            if !bad {
                match lo {
                    Some(l) => {
                        let ghost before = lines@;
                        lines.push(l);
                        assert(line_views(lines@) =~= line_views(before).push(l@));
                    },
                    None => {
                        bad = true;
                    },
                }
            }
        }
        i = i + 1;
    }
    assert(rows@.take(rows@.len() as int) =~= rows@);
    if bad {
        None
    } else {
        Some(lines)
    }
}

/// The columns read from each Amazon PO of a combined report, or the first one missing.
pub open spec fn amazon_agg_columns(h: Seq<String>) -> Result<(int, int, int, int), Missing> {
    match required(h, "ASIN"@, Missing::Asin) {
        Err(m) => Err(m),
        Ok(a) => match required(h, "Title"@, Missing::Title) {
            Err(m) => Err(m),
            Ok(t) => match required(h, "Quantity Requested"@, Missing::Qty) {
                Err(m) => Err(m),
                Ok(q) => match required(h, "Case Cost"@, Missing::CaseCost) {
                    Err(m) => Err(m),
                    Ok(c) => Ok((a, t, q, c)),
                },
            },
        },
    }
}

/// The columns read from each iHerb PO of a combined report, or the first one missing.
pub open spec fn iherb_agg_columns(h: Seq<String>) -> Result<(int, int, int, int), Missing> {
    match required(h, "Buyers Catalog or Stock Keeping #"@, Missing::Sku) {
        Err(m) => Err(m),
        Ok(s) => match required(h, "Product/Item Description"@, Missing::Title) {
            Err(m) => Err(m),
            Ok(t) => match required(h, "Qty Ordered"@, Missing::Qty) {
                Err(m) => Err(m),
                Ok(q) => match required(h, "Unit Price"@, Missing::UnitPrice) {
                    Err(m) => Err(m),
                    Ok(u) => Ok((s, t, q, u)),
                },
            },
        },
    }
}

/// The lines of one Amazon PO (rows with an ASIN), or why it cannot be read.
#[verifier::opaque]
pub open spec fn amazon_file(f: Result<Table, PoError>) -> Result<Seq<LineView>, PoError> {
    match f {
        Err(e) => Err(e),
        Ok(t) => match amazon_agg_columns(t.headers@) {
            Err(m) => Err(PoError::MissingColumn(m)),
            Ok((a, ti, q, c)) => Ok(asin_lines(t.rows@, a, ti, q, c)),
        },
    }
}

/// The lines of one iHerb PO (rows with a SKU), or why it cannot be read.
#[verifier::opaque]
pub open spec fn iherb_file(f: Result<Table, PoError>) -> Result<Seq<LineView>, PoError> {
    match f {
        Err(e) => Err(e),
        Ok(t) => match iherb_agg_columns(t.headers@) {
            Err(m) => Err(PoError::MissingColumn(m)),
            Ok((s, ti, q, u)) => Ok(iherb_lines(t.rows@, s, ti, q, u)),
        },
    }
}

/// The lines of all Amazon POs, in file order, or the first failure: a file that
/// could not be read or that lacks a column.
pub open spec fn amazon_files_lines(files: Seq<Result<Table, PoError>>) -> Result<
    Seq<LineView>,
    PoError,
>
    decreases files.len(),
{
    if files.len() == 0 {
        Ok(Seq::empty())
    } else {
        match amazon_files_lines(files.drop_last()) {
            Err(e) => Err(e),
            Ok(prev) => match amazon_file(files.last()) {
                Err(e) => Err(e),
                Ok(ls) => Ok(prev + ls),
            },
        }
    }
}

/// The lines of all iHerb POs, in file order, or the first failure.
pub open spec fn iherb_files_lines(files: Seq<Result<Table, PoError>>) -> Result<
    Seq<LineView>,
    PoError,
>
    decreases files.len(),
{
    if files.len() == 0 {
        Ok(Seq::empty())
    } else {
        match iherb_files_lines(files.drop_last()) {
            Err(e) => Err(e),
            Ok(prev) => match iherb_file(files.last()) {
                Err(e) => Err(e),
                Ok(ls) => Ok(prev + ls),
            },
        }
    }
}

/// The columns of one Amazon PO, as positions.
fn amazon_agg_cols(t: &Table) -> (r: Result<(usize, usize, usize, usize), PoError>)
    ensures
        match amazon_agg_columns(t.headers@) {
            Err(m) => r == Err::<(usize, usize, usize, usize), PoError>(PoError::MissingColumn(m)),
            Ok((a, ti, q, c)) => r matches Ok((a2, t2, q2, c2)) && a2 == a && t2 == ti && q2 == q
                && c2 == c,
        },
{
    let a = need_col(&t.headers, "ASIN", Missing::Asin)?;
    let ti = need_col(&t.headers, "Title", Missing::Title)?;
    let q = need_col(&t.headers, "Quantity Requested", Missing::Qty)?;
    let c = need_col(&t.headers, "Case Cost", Missing::CaseCost)?;
    Ok((a, ti, q, c))
}

/// The columns of one iHerb PO, as positions.
fn iherb_agg_cols(t: &Table) -> (r: Result<(usize, usize, usize, usize), PoError>)
    ensures
        match iherb_agg_columns(t.headers@) {
            Err(m) => r == Err::<(usize, usize, usize, usize), PoError>(PoError::MissingColumn(m)),
            Ok((s, ti, q, u)) => r matches Ok((s2, t2, q2, u2)) && s2 == s && t2 == ti && q2 == q
                && u2 == u,
        },
{
    let s = need_col(&t.headers, "Buyers Catalog or Stock Keeping #", Missing::Sku)?;
    let ti = need_col(&t.headers, "Product/Item Description", Missing::Title)?;
    let q = need_col(&t.headers, "Qty Ordered", Missing::Qty)?;
    let u = need_col(&t.headers, "Unit Price", Missing::UnitPrice)?;
    Ok((s, ti, q, u))
}

fn amazon_one_file(f: &Result<Table, PoError>) -> (r: Result<Option<Vec<Line>>, PoError>)
    ensures
        match amazon_file(*f) {
            Err(e) => r == Err::<Option<Vec<Line>>, PoError>(e),
            Ok(ls) => match r {
                Ok(Some(lines)) => line_views(lines@) == ls && forall|j: int|
                    0 <= j < lines@.len() ==> line_in_range(#[trigger] lines@[j]@),
                Ok(None) => !lines_in_range(ls),
                Err(_) => false,
            },
        },
{
    reveal(amazon_file);
    match f {
        Err(e) => Err(e.duplicate()),
        Ok(t) => {
            let (a, ti, q, c) = amazon_agg_cols(t)?;
            Ok(asin_lines_of(&t.rows, a, ti, q, c))
        },
    }
}

fn iherb_one_file(f: &Result<Table, PoError>) -> (r: Result<Option<Vec<Line>>, PoError>)
    ensures
        match iherb_file(*f) {
            Err(e) => r == Err::<Option<Vec<Line>>, PoError>(e),
            Ok(ls) => match r {
                Ok(Some(lines)) => line_views(lines@) == ls && forall|j: int|
                    0 <= j < lines@.len() ==> line_in_range(#[trigger] lines@[j]@),
                Ok(None) => !lines_in_range(ls),
                Err(_) => false,
            },
        },
{
    reveal(iherb_file);
    match f {
        Err(e) => Err(e.duplicate()),
        Ok(t) => {
            let (s, ti, q, u) = iherb_agg_cols(t)?;
            Ok(iherb_lines_of(&t.rows, s, ti, q, u))
        },
    }
}

/// Collects the order lines of several Amazon POs (rows with an ASIN), in order; `Ok(None)` when the magnitudes of their figures add up to more
/// than `NUMBER_BOUND`.
pub fn amazon_file_lines(files: &Vec<Result<Table, PoError>>) -> (r: Result<Option<Vec<Line>>, PoError>)
    ensures
        match amazon_files_lines(files@) {
            Err(e) => r == Err::<Option<Vec<Line>>, PoError>(e),
            Ok(ls) => if lines_in_range(ls) {
                r matches Ok(Some(lines)) && line_views(lines@) == ls
            } else {
                r == Ok::<Option<Vec<Line>>, PoError>(None)
            },
        },
{
    let mut lines: Vec<Line> = Vec::new();
    let mut bad = false;
    let ghost mut acc: Seq<LineView> = Seq::empty();
    let mut i: usize = 0;
    assert(files@.take(0) =~= Seq::<Result<Table, PoError>>::empty());
    assert(line_views(lines@) =~= Seq::<LineView>::empty());
    while i < files.len()
        invariant
            i <= files@.len(),
            amazon_files_lines(files@.take(i as int)) == Ok::<Seq<LineView>, PoError>(acc),
            !bad ==> line_views(lines@) == acc,
            !bad ==> forall|j: int| 0 <= j < lines@.len() ==> line_in_range(#[trigger] lines@[j]@),
            bad ==> !lines_in_range(acc),
        decreases files@.len() - i,
    {
        assert(files@.take(i + 1).drop_last() =~= files@.take(i as int));
        assert(files@.take(i + 1).last() == files@[i as int]);
        match amazon_one_file(&files[i]) {
            Err(e) => {
                proof {
                    lemma_files_error_persists(files@, i as int + 1, true);
                }
                return Err(e);
            },
            Ok(found) => {
                let ghost ms = amazon_file(files@[i as int])->Ok_0;
                proof {
                    lemma_mass_append(acc, ms);
                    lemma_mass_nonneg(acc);
                    lemma_mass_nonneg(ms);
                }
                match found {
                    Some(more) => {
                        if !bad {
                            let mut more = more;
                            let ghost before = lines@;
                            let ghost added = more@;
                            lines.append(&mut more);
                            assert(line_views(lines@) =~= line_views(before) + line_views(added));
                            assert forall|j: int| 0 <= j < lines@.len() implies line_in_range(#[trigger] lines@[j]@) by {
                                if j >= before.len() {
                                    assert(lines@[j] == added[j - before.len()]);
                                }
                            }
                        }
                    },
                    None => {
                        bad = true;
                    },
                }
                proof {
                    acc = acc + ms;
                }
            },
        }
        i = i + 1;
    }
    assert(files@.take(files@.len() as int) =~= files@);
    if bad {
        Ok(None)
    } else if lines_fit(&lines) {
        Ok(Some(lines))
    } else {
        Ok(None)
    }
}

/// Once the files read so far fail, the whole list fails the same way.
proof fn lemma_files_error_persists(files: Seq<Result<Table, PoError>>, k: int, amazon: bool)
    requires
        0 <= k <= files.len(),
        amazon ==> amazon_files_lines(files.take(k)) is Err,
        !amazon ==> iherb_files_lines(files.take(k)) is Err,
    ensures
        amazon ==> amazon_files_lines(files) == amazon_files_lines(files.take(k)),
        !amazon ==> iherb_files_lines(files) == iherb_files_lines(files.take(k)),
    decreases files.len() - k,
{
    if k < files.len() {
        assert(files.take(k + 1).drop_last() =~= files.take(k));
        lemma_files_error_persists(files, k + 1, amazon);
    } else {
        assert(files.take(k) =~= files);
    }
}

/// Collects the order lines of several iHerb POs (rows with a SKU), in order; `Ok(None)` when the magnitudes of their figures add up to more
/// than `NUMBER_BOUND`.
pub fn iherb_file_lines(files: &Vec<Result<Table, PoError>>) -> (r: Result<Option<Vec<Line>>, PoError>)
    ensures
        match iherb_files_lines(files@) {
            Err(e) => r == Err::<Option<Vec<Line>>, PoError>(e),
            Ok(ls) => if lines_in_range(ls) {
                r matches Ok(Some(lines)) && line_views(lines@) == ls
            } else {
                r == Ok::<Option<Vec<Line>>, PoError>(None)
            },
        },
{
    let mut lines: Vec<Line> = Vec::new();
    let mut bad = false;
    let ghost mut acc: Seq<LineView> = Seq::empty();
    let mut i: usize = 0;
    assert(files@.take(0) =~= Seq::<Result<Table, PoError>>::empty());
    assert(line_views(lines@) =~= Seq::<LineView>::empty());
    while i < files.len()
        invariant
            i <= files@.len(),
            iherb_files_lines(files@.take(i as int)) == Ok::<Seq<LineView>, PoError>(acc),
            !bad ==> line_views(lines@) == acc,
            !bad ==> forall|j: int| 0 <= j < lines@.len() ==> line_in_range(#[trigger] lines@[j]@),
            bad ==> !lines_in_range(acc),
        decreases files@.len() - i,
    {
        assert(files@.take(i + 1).drop_last() =~= files@.take(i as int));
        assert(files@.take(i + 1).last() == files@[i as int]);
        match iherb_one_file(&files[i]) {
            Err(e) => {
                proof {
                    lemma_files_error_persists(files@, i as int + 1, false);
                }
                return Err(e);
            },
            Ok(found) => {
                let ghost ms = iherb_file(files@[i as int])->Ok_0;
                proof {
                    lemma_mass_append(acc, ms);
                    lemma_mass_nonneg(acc);
                    lemma_mass_nonneg(ms);
                }
                match found {
                    Some(more) => {
                        if !bad {
                            let mut more = more;
                            let ghost before = lines@;
                            let ghost added = more@;
                            lines.append(&mut more);
                            assert(line_views(lines@) =~= line_views(before) + line_views(added));
                            assert forall|j: int| 0 <= j < lines@.len() implies line_in_range(#[trigger] lines@[j]@) by {
                                if j >= before.len() {
                                    assert(lines@[j] == added[j - before.len()]);
                                }
                            }
                        }
                    },
                    None => {
                        bad = true;
                    },
                }
                proof {
                    acc = acc + ms;
                }
            },
        }
        i = i + 1;
    }
    assert(files@.take(files@.len() as int) =~= files@);
    if bad {
        Ok(None)
    } else if lines_fit(&lines) {
        Ok(Some(lines))
    } else {
        Ok(None)
    }
}

} // verus!
