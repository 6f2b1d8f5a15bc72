//! Tables of text cells, errors, and reading CSV text.
use crate::text::{trim_text, trimmed};
use vstd::prelude::*;

verus! {

/// A sheet or CSV file: the header row and the data rows, every cell as text.
pub struct Table {
    pub headers: Vec<String>,
    pub rows: Vec<Vec<String>>,
}

/// A required column that a file lacks; each names the text of its message.
pub enum Missing {
    Asin,
    Title,
    QuantityRequested,
    Qty,
    QtyOrdered,
    CaseCost,
    Sku,
    UnitPrice,
    ProductDescription,
}

/// Why a report could not be built.
pub enum PoError {
    /// A required column is absent.
    MissingColumn(Missing),
    /// A CSV file could not be read; the csv crate's message.
    Csv(String),
    /// A file could not be opened or read; the message of the code that read it.
    Load(String),
    /// The figures are too large to be summed within 128 bits.
    TotalTooLarge,
}

pub open spec fn missing_text(m: Missing) -> Seq<char> {
    match m {
        Missing::Asin => "ASIN not found"@,
        Missing::Title => "Title not found"@,
        Missing::QuantityRequested => "Quantity Requested not found"@,
        Missing::Qty => "Qty not found"@,
        Missing::QtyOrdered => "Qty Ordered not found"@,
        Missing::CaseCost => "Case Cost not found"@,
        Missing::Sku => "SKU not found"@,
        Missing::UnitPrice => "Unit Price not found"@,
        Missing::ProductDescription => "Product Description not found"@,
    }
}

pub open spec fn error_text(e: PoError) -> Seq<char> {
    match e {
        PoError::MissingColumn(m) => missing_text(m),
        PoError::Csv(s) => s@,
        PoError::Load(s) => s@,
        PoError::TotalTooLarge => "Grand total too large"@,
    }
}

impl PoError {
    /// A copy of the error.
    pub fn duplicate(&self) -> (r: PoError)
        ensures
            r == *self,
    {
        match self {
            PoError::MissingColumn(m) => PoError::MissingColumn(match m {
                Missing::Asin => Missing::Asin,
                Missing::Title => Missing::Title,
                Missing::QuantityRequested => Missing::QuantityRequested,
                Missing::Qty => Missing::Qty,
                Missing::QtyOrdered => Missing::QtyOrdered,
                Missing::CaseCost => Missing::CaseCost,
                Missing::Sku => Missing::Sku,
                Missing::UnitPrice => Missing::UnitPrice,
                Missing::ProductDescription => Missing::ProductDescription,
            }),
            PoError::Csv(s) => PoError::Csv(s.clone()),
            PoError::Load(s) => PoError::Load(s.clone()),
            PoError::TotalTooLarge => PoError::TotalTooLarge,
        }
    }

    /// The error's message.
    pub fn message(&self) -> (r: String)
        ensures
            r@ == error_text(*self),
    {
        match self {
            PoError::MissingColumn(m) => match m {
                Missing::Asin => "ASIN not found".to_string(),
                Missing::Title => "Title not found".to_string(),
                Missing::QuantityRequested => "Quantity Requested not found".to_string(),
                Missing::Qty => "Qty not found".to_string(),
                Missing::QtyOrdered => "Qty Ordered not found".to_string(),
                Missing::CaseCost => "Case Cost not found".to_string(),
                Missing::Sku => "SKU not found".to_string(),
                Missing::UnitPrice => "Unit Price not found".to_string(),
                Missing::ProductDescription => "Product Description not found".to_string(),
            },
            PoError::Csv(s) => s.clone(),
            PoError::Load(s) => s.clone(),
            PoError::TotalTooLarge => "Grand total too large".to_string(),
        }
    }
}

/// The cell at position `i` of a row, or the empty text when the row is shorter.
pub open spec fn cell_text(row: Seq<String>, i: int) -> Seq<char> {
    if 0 <= i < row.len() {
        row[i]@
    } else {
        Seq::empty()
    }
}

/// The cell at position `i` of a row; empty when the row has no such cell.
pub fn cell(row: &Vec<String>, i: usize) -> (r: String)
    ensures
        r@ == cell_text(row@, i as int),
{
    if i < row.len() {
        row[i].clone()
    } else {
        String::new()
    }
}

pub open spec fn texts(v: Seq<String>) -> Seq<Seq<char>> {
    v.map_values(|s: String| s@)
}

pub open spec fn text_rows(v: Seq<Vec<String>>) -> Seq<Seq<Seq<char>>> {
    v.map_values(|r: Vec<String>| texts(r@))
}

pub open spec fn trim_all(v: Seq<Seq<char>>) -> Seq<Seq<char>> {
    v.map_values(|s: Seq<char>| trimmed(s))
}

/// What the csv crate reads from `bytes`, with its default settings and a header
/// row: the header fields and the fields of each record, or `None` when it
/// reports an error.
pub uninterp spec fn csv_parse(bytes: Seq<u8>) -> Option<(Seq<Seq<char>>, Seq<Seq<Seq<char>>>)>;

/// The message (the `Display` text of `csv::Error`) of the first error the csv
/// crate reports reading `bytes`.
pub uninterp spec fn csv_error_message(bytes: Seq<u8>) -> Seq<char>;

/// Reads CSV text with `csv::ReaderBuilder` (header row on) through
/// `Reader::headers` and `Reader::records`; the contract names the outcome
/// `csv_parse` and the text of the first error `csv_error_message`, both
/// functions of the bytes alone.
#[verifier::external_body]
fn read_csv(bytes: &[u8]) -> (r: Result<(Vec<String>, Vec<Vec<String>>), String>)
    ensures
        match r {
            Ok((h, rs)) => csv_parse(bytes@) == Some((texts(h@), text_rows(rs@))),
            Err(m) => csv_parse(bytes@) is None && m@ == csv_error_message(bytes@),
        },
{
    let mut rdr = csv::ReaderBuilder::new().has_headers(true).from_reader(bytes);
    let headers = rdr.headers().map_err(|e| e.to_string())?;
    let headers: Vec<String> = headers.iter().map(|s| s.to_string()).collect();
    let mut rows: Vec<Vec<String>> = Vec::new();
    for record in rdr.records() {
        rows.push(record.map_err(|e| e.to_string())?.iter().map(|s| s.to_string()).collect());
    }
    Ok((headers, rows))
}

fn trim_each(v: &Vec<String>) -> (r: Vec<String>)
    ensures
        texts(r@) == trim_all(texts(v@)),
{
    let mut r: Vec<String> = Vec::new();
    let mut i: usize = 0;
    while i < v.len()
        invariant
            i <= v@.len(),
            r@.len() == i,
            forall|j: int| 0 <= j < i ==> #[trigger] r@[j]@ == trimmed(v@[j]@),
        decreases v@.len() - i,
    {
        r.push(trim_text(v[i].as_str()));
        i = i + 1;
    }
    assert(texts(r@) =~= trim_all(texts(v@)));
    r
}

/// The table of a header row and records, every field trimmed.
pub fn trimmed_table(h: &Vec<String>, rs: &Vec<Vec<String>>) -> (t: Table)
    ensures
        texts(t.headers@) == trim_all(texts(h@)),
        t.rows@.len() == rs@.len(),
        forall|i: int| 0 <= i < rs@.len() ==> texts(#[trigger] t.rows@[i]@) == trim_all(texts(rs@[i]@)),
{
    let headers = trim_each(h);
    let mut rows: Vec<Vec<String>> = Vec::new();
    let mut i: usize = 0;
    while i < rs.len()
        invariant
            i <= rs@.len(),
            rows@.len() == i,
            forall|j: int| 0 <= j < i ==> texts(#[trigger] rows@[j]@) == trim_all(texts(rs@[j]@)),
        decreases rs@.len() - i,
    {
        rows.push(trim_each(&rs[i]));
        i = i + 1;
    }
    Table { headers, rows }
}

/// Reads a CSV file's text: the header row and the records, every field trimmed.
pub fn load_csv(bytes: &[u8]) -> (r: Result<Table, PoError>)
    ensures
        match r {
            Ok(t) => match csv_parse(bytes@) {
                Some((h, rs)) => texts(t.headers@) == trim_all(h) && t.rows@.len() == rs.len()
                    && forall|i: int|
                    0 <= i < rs.len() ==> texts(#[trigger] t.rows@[i]@) == trim_all(rs[i]),
                None => false,
            },
            Err(e) => csv_parse(bytes@) is None && e is Csv && e->Csv_0@ == csv_error_message(
                bytes@,
            ),
        },
{
    match read_csv(bytes) {
        Ok((h, rs)) => {
            let t = trimmed_table(&h, &rs);
            assert forall|j: int| 0 <= j < rs@.len() implies texts(#[trigger] t.rows@[j]@)
                == trim_all(text_rows(rs@)[j]) by {}
            Ok(t)
        },
        Err(m) => Err(PoError::Csv(m)),
    }
}

} // verus!
