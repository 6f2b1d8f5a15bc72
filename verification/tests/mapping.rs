use po_aggregator::sources::load_mapping;
use po_aggregator::table::{Missing, PoError, Table};

fn table(headers: &[&str], rows: &[&[&str]]) -> Table {
    Table {
        headers: headers.iter().map(|h| h.to_string()).collect(),
        rows: rows.iter().map(|r| r.iter().map(|c| c.to_string()).collect()).collect(),
    }
}

const HEAD: [&str; 4] = ["Buyers Catalog or Stock Keeping #", "ASIN", "Product Description", "Pack?"];

#[test]
fn mapping_reads_entries_and_pack_flags() {
    let t = table(&HEAD, &[
        &["TOT1", "B1", "Green", "Pack Exists"],
        &["TOT2", "", "iHerb only", ""],
        &["", "B3", "Amazon only", "no"],
        &["TOT4", "B4", "Jasmine", "PACK"],
    ]);
    let ms = load_mapping(&t).ok().unwrap();
    assert_eq!(ms.len(), 4);
    assert_eq!(ms[0].sku, "TOT1");
    assert_eq!(ms[0].asin, "B1");
    assert_eq!(ms[0].name, "Green");
    assert!(ms[0].is_pack);
    assert!(!ms[1].is_pack);
    assert_eq!(ms[1].asin, "");
    assert_eq!(ms[2].sku, "");
    assert!(!ms[2].is_pack);
    assert!(ms[3].is_pack);
}

#[test]
fn mapping_skips_rows_without_sku_and_asin() {
    let t = table(&HEAD, &[&["", "", "nothing", "pack"], &["TOT9", "", "kept", ""]]);
    let ms = load_mapping(&t).ok().unwrap();
    assert_eq!(ms.len(), 1);
    assert_eq!(ms[0].sku, "TOT9");
}

#[test]
fn mapping_without_pack_column_has_no_packs() {
    let t = table(&HEAD[..3], &[&["TOT1", "B1", "Green"]]);
    let ms = load_mapping(&t).ok().unwrap();
    assert!(!ms[0].is_pack);
}

#[test]
fn mapping_missing_columns() {
    let t = table(&["ASIN", "Product Description"], &[]);
    assert!(matches!(load_mapping(&t), Err(PoError::MissingColumn(Missing::Sku))));
    let t = table(&["Buyers Catalog or Stock Keeping #", "Product Description"], &[]);
    assert!(matches!(load_mapping(&t), Err(PoError::MissingColumn(Missing::Asin))));
    let t = table(&["Buyers Catalog or Stock Keeping #", "ASIN"], &[]);
    let e = load_mapping(&t).err().unwrap();
    assert_eq!(e.message(), "Product Description not found");
}
