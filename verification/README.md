# po_aggregator

Purchase-order aggregation for Amazon Vendor Central and iHerb orders, with its
logic verified by Verus.

- `src/` is the verified library: reading decimal cells, finding columns,
  grouping order lines by ASIN or SKU, the single-platform summaries, the
  combined Amazon + iHerb summary, the big-ticket breakdown, and the cell
  layouts of the three Excel reports. `src/laws.rs` holds the properties proved
  of the reports as a whole.
- `app/` is the desktop program: Tauri commands that read the workbooks and CSV
  files, call the library, and write the laid-out sheets with rust_xlsxwriter.
- `tests/` runs the library on concrete purchase orders.

Numbers are exact integers: cells are read as decimals, with an optional
exponent, in hundred-millionths (digits past the eighth decimal place dropped;
text that is no number counts as zero), quantities and cases are held in units
of 1/1200000000 so that a sixth or a twelfth of a case is exact, and money in
units of 10^-16. A report fails with `TotalTooLarge` only when the magnitudes of
its lines' figures add up to more than 2^125.
