use po_aggregator::table::{load_csv, PoError};
use po_aggregator::text::{contains_text, eq_ignore_ascii_case, trim_text};
use po_aggregator::{col, str_eq};

fn v(xs: &[&str]) -> Vec<String> {
    xs.iter().map(|x| x.to_string()).collect()
}

#[test]
fn col_finds_first_matching_header() {
    let h = v(&["PO", " Asin ", "ASIN", "Title"]);
    assert_eq!(col(&h, "ASIN"), Some(1));
    assert_eq!(col(&h, "  title"), Some(3));
    assert_eq!(col(&h, "Case Cost"), None);
    assert_eq!(col(&v(&[]), "ASIN"), None);
}

#[test]
fn col_ignores_only_ascii_case() {
    let h = v(&["STRASSE", "Ünit"]);
    assert_eq!(col(&h, "strasse"), Some(0));
    assert_eq!(col(&h, "ünit"), None);
    assert_eq!(col(&h, "Ünit"), Some(1));
}

#[test]
fn text_helpers() {
    assert!(str_eq("abc", "abc"));
    assert!(!str_eq("abc", "abd"));
    assert!(eq_ignore_ascii_case("Qty Ordered", "qty ordered"));
    assert!(!eq_ignore_ascii_case("Qty", "Qty "));
    assert_eq!(trim_text("\t  PO 12 \n"), "PO 12");
    assert_eq!(trim_text("\u{3000}x y\u{a0}\u{2029}"), "x y");
    assert_eq!(trim_text("   "), "");
    assert_eq!(trim_text(""), "");
    assert_eq!(trim_text("\u{200b}x"), "\u{200b}x");
    assert!(contains_text("pack exists", "pack"));
    assert!(contains_text("abc", ""));
    assert!(!contains_text("pac", "pack"));
}

#[test]
fn csv_fields_lose_unicode_white_space() {
    let t = load_csv("a,b\n\u{3000}x\u{a0},\t y \n".as_bytes()).ok().unwrap();
    assert_eq!(t.rows[0], v(&["x", "y"]));
}

#[test]
fn csv_fields_are_trimmed() {
    let t = match load_csv(b"SKU , Qty Ordered\n TOT1 , 12 \nTOT2,3\n") {
        Ok(t) => t,
        Err(e) => panic!("{}", e.message()),
    };
    assert_eq!(t.headers, v(&["SKU", "Qty Ordered"]));
    assert_eq!(t.rows.len(), 2);
    assert_eq!(t.rows[0], v(&["TOT1", "12"]));
    assert_eq!(t.rows[1], v(&["TOT2", "3"]));
}

#[test]
fn csv_quoted_fields_keep_commas() {
    let t = load_csv(b"a,b\n\"x, y\",2\n").ok().unwrap();
    assert_eq!(t.rows[0], v(&["x, y", "2"]));
}

#[test]
fn csv_with_only_headers_has_no_rows() {
    let t = load_csv(b"a,b\n").ok().unwrap();
    assert_eq!(t.headers, v(&["a", "b"]));
    assert!(t.rows.is_empty());
}

#[test]
fn csv_ragged_record_is_an_error() {
    let first = match load_csv(b"a,b\n1,2\n3\n") {
        Err(PoError::Csv(msg)) => msg,
        _ => panic!("expected a CSV error"),
    };
    assert!(first.contains("found record with 1 fields, but the previous record has 2 fields"));
    let again = match load_csv(b"a,b\n1,2\n3\n") {
        Err(PoError::Csv(msg)) => msg,
        _ => panic!("expected a CSV error"),
    };
    assert_eq!(first, again);
}

#[test]
fn csv_invalid_utf8_is_an_error() {
    assert!(matches!(load_csv(b"a,b\n\xff,1\n"), Err(PoError::Csv(_))));
}

#[test]
fn records_become_a_trimmed_table() {
    let t = po_aggregator::table::trimmed_table(&v(&[" SKU", "Qty\t"]), &vec![v(&[" a ", "1"]), v(&["b"])]);
    assert_eq!(t.headers, v(&["SKU", "Qty"]));
    assert_eq!(t.rows, vec![v(&["a", "1"]), v(&["b"])]);
}
