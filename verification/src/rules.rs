//! The business rules of the aggregation.
use crate::text::str_eq;
use vstd::prelude::*;

verus! {

/// Quantities (units or cases) are held as multiples of 1/1200000000: a number
/// read in hundred-millionths is multiplied by 12, so a sixth or a twelfth of a
/// case is exact.
pub const QTY_SCALE: i128 = 1200000000;

/// Money is held in units of 10^-16: the product of a quantity and a price, both
/// read in hundred-millionths.
pub const MONEY_SCALE: i128 = 10000000000000000;

/// Combined Amazon and iHerb total from which a product is a big ticket: $2,000.
pub const BIG_TICKET_THRESHOLD: i128 = 20000000000000000000;

/// The SKUs sold six units to a case.
pub open spec fn is_premier(sku: Seq<char>) -> bool {
    ||| sku == "TOT91451"@
    ||| sku == "TOT91471"@
    ||| sku == "TOT91461"@
    ||| sku == "TOT91411"@
    ||| sku == "TOT91421"@
    ||| sku == "TOT91491"@
    ||| sku == "TOT91441"@
}

pub open spec fn spec_units_per_case(sku: Seq<char>) -> int {
    if is_premier(sku) {
        6
    } else {
        12
    }
}

/// Units per case of an iHerb SKU: 6 for the premier SKUs, 12 for every other.
pub fn units_per_case(sku: &str) -> (r: i64)
    ensures
        r == spec_units_per_case(sku@),
{
    if str_eq(sku, "TOT91451") || str_eq(sku, "TOT91471") || str_eq(sku, "TOT91461") || str_eq(
        sku,
        "TOT91411",
    ) || str_eq(sku, "TOT91421") || str_eq(sku, "TOT91491") || str_eq(sku, "TOT91441") {
        6
    } else {
        12
    }
}

/// An iHerb SKU cell that names no product: empty, or the text `nan`.
pub open spec fn is_missing_sku(sku: Seq<char>) -> bool {
    sku.len() == 0 || sku == "nan"@
}

pub fn missing_sku(sku: &str) -> (r: bool)
    ensures
        r == is_missing_sku(sku@),
{
    sku.unicode_len() == 0 || str_eq(sku, "nan")
}

} // verus!
