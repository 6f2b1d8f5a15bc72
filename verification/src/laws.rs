//! Properties of the reports that hold for every input.
use crate::aggregate::{
    amazon_lines, group_totals, is_summary_of, lines_cases, lines_total, row_of_group, AggRow, ProcessResult,
};
use crate::bigticket::{
    amazon_section, amount_of, bigticket_spec, bt_files, asin_mapped, entry_lines, iherb_section, mapping_section, sku_mapped,
    amazon_only_sections, bt_sections, iherb_only_sections, is_breakdown, mapped_sections,
    section_totals, section_views, BigTicketSection, Entry, SectionView,
};
use crate::combine::{
    amazon_only_rows, amazon_row, arranged, asin_used, combined_rows, emits, iherb_only_rows,
    iherb_row, is_combined_report, mapped_row, mapped_rows, row_totals, row_views, seq_sum,
    sku_used, combined_spec, CombinedResult, CombinedRowView,
};
use crate::rules::BIG_TICKET_THRESHOLD;
use crate::sheet::{
    agg_money_values, aggregator_sheet_spec, bigticket_cells, bigticket_sheet_spec, block_cells,
    block_heading_texts, cell_views, combined_body_cells, combined_columns, combined_row_cells,
    combined_sheet_spec, detail_cells, details_cells, heading_cells, money_at, present, qty_at,
    section_cells, sections_height, text_at, CellView, SheetPlan, Style,
};
use crate::bigticket::PoDetailRow;
use crate::combine::CombinedRow;
use crate::sources::{mapping_columns, mapping_entries, amazon_files_lines, iherb_files_lines, MappingView};
use crate::table::{cell_text, PoError, Table};
use crate::number::number_or_zero;
use crate::text::column_of;
use crate::group::{
    cases_of, distinct_keys, first_title, has_key, lemma_distinct_keys, line_keys, qty_of, total_of, LineView,
};
use crate::order::{is_desc_order, precedes};
use vstd::prelude::*;
use vstd::set_lib::{lemma_int_range, lemma_subset_equality, set_int_range};

verus! {

/// Position `i` occurs in `order`.
pub open spec fn listed(order: Seq<usize>, i: int) -> bool {
    exists|a: int| 0 <= a < order.len() && order[a] == i
}

/// A stable descending order lists every position exactly once.
pub proof fn lemma_order_onto(keys: Seq<int>, order: Seq<usize>)
    requires
        is_desc_order(keys, order),
    ensures
        forall|i: int| 0 <= i < keys.len() ==> #[trigger] listed(order, i),
        forall|a: int, b: int| 0 <= a < order.len() && 0 <= b < order.len() && a != b ==> order[a] != order[b],
{
    let n = keys.len() as int;
    assert forall|a: int, b: int| 0 <= a < order.len() && 0 <= b < order.len() && a != b implies order[a] != order[b] by {
        if a < b {
            assert(precedes(keys, order[a] as int, order[b] as int));
        } else {
            assert(precedes(keys, order[b] as int, order[a] as int));
        }
    }
    let oi = order.map_values(|x: usize| x as int);
    assert(oi.no_duplicates()) by {
        assert forall|a: int, b: int| 0 <= a < oi.len() && 0 <= b < oi.len() && a != b implies oi[a] != oi[b] by {
            assert(order[a] != order[b]);
        }
    }
    oi.unique_seq_to_set();
    lemma_int_range(0, n);
    assert(oi.to_set().subset_of(set_int_range(0, n))) by {
        assert forall|x: int| oi.to_set().contains(x) implies set_int_range(0, n).contains(x) by {
            let a = choose|a: int| 0 <= a < oi.len() && oi[a] == x;
            assert(order[a] < keys.len());
        }
    }
    lemma_subset_equality(oi.to_set(), set_int_range(0, n));
    assert forall|i: int| 0 <= i < keys.len() implies #[trigger] listed(order, i) by {
        assert(set_int_range(0, n).contains(i));
        assert(oi.to_set().contains(i));
        let a = choose|a: int| 0 <= a < oi.len() && oi[a] == i;
        assert(order[a] == i);
    }
}

proof fn lemma_sum_remove(s: Seq<int>, i: int)
    requires
        0 <= i < s.len(),
    ensures
        seq_sum(s) == seq_sum(s.remove(i)) + s[i],
    decreases s.len(),
{
    if i == s.len() - 1 {
        assert(s.remove(i) =~= s.drop_last());
    } else {
        lemma_sum_remove(s.drop_last(), i);
        assert(s.remove(i).drop_last() =~= s.drop_last().remove(i));
        assert(s.remove(i).last() == s.last());
    }
}

/// Positions `p` list `0..n` each once.
pub open spec fn is_permutation(p: Seq<usize>, n: int) -> bool {
    &&& p.len() == n
    &&& forall|a: int| 0 <= a < p.len() ==> #[trigger] p[a] < n
    &&& forall|a: int, b: int| 0 <= a < p.len() && 0 <= b < p.len() && a != b ==> p[a] != p[b]
}

/// Reordering a sequence by a permutation keeps its sum.
pub proof fn lemma_sum_permuted(v: Seq<int>, p: Seq<usize>)
    requires
        is_permutation(p, v.len() as int),
        forall|i: int| 0 <= i < v.len() ==> #[trigger] listed(p, i),
    ensures
        seq_sum(arranged(v, p)) == seq_sum(v),
    decreases v.len(),
{
    let n = v.len() as int;
    if n == 0 {
        assert(arranged(v, p) =~= Seq::<int>::empty());
    } else {
        assert(listed(p, n - 1));
        let a0 = choose|a: int| 0 <= a < p.len() && p[a] == n - 1;
        let q = p.remove(a0);
        let w = v.drop_last();
        assert forall|a: int| 0 <= a < q.len() implies #[trigger] q[a] < n - 1 by {
            if a < a0 {
                assert(q[a] == p[a] && p[a] != p[a0]);
            } else {
                assert(q[a] == p[a + 1] && p[a + 1] != p[a0]);
            }
        }
        assert forall|a: int, b: int| 0 <= a < q.len() && 0 <= b < q.len() && a != b implies q[a] != q[b] by {
            let a1 = if a < a0 { a } else { a + 1 };
            let b1 = if b < a0 { b } else { b + 1 };
            assert(q[a] == p[a1] && q[b] == p[b1]);
        }
        assert(listed(p, n - 1));
        assert forall|i: int| 0 <= i < w.len() implies #[trigger] listed(q, i) by {
            assert(listed(p, i));
            let a = choose|a: int| 0 <= a < p.len() && p[a] == i;
            assert(a != a0);
            if a < a0 {
                assert(q[a] == i);
            } else {
                assert(q[a - 1] == i);
            }
        }
        lemma_sum_permuted(w, q);
        lemma_sum_remove(arranged(v, p), a0);
        assert(arranged(v, p).remove(a0) =~= arranged(w, q)) by {
            assert forall|a: int| 0 <= a < q.len() implies arranged(v, p).remove(a0)[a] == arranged(w, q)[a] by {
                if a < a0 {
                    assert(q[a] == p[a]);
                } else {
                    assert(q[a] == p[a + 1]);
                }
            }
        }
        assert(v.drop_last() == w);
    }
}

/// One of a line's three amounts: its quantity (`sel == 0`), its cases
/// (`sel == 1`) or its total (otherwise).
pub open spec fn amount(l: LineView, sel: int) -> int {
    if sel == 0 {
        l.qty
    } else if sel == 1 {
        l.cases
    } else {
        l.total
    }
}

/// Sum of one amount over the lines with key `k`.
pub open spec fn amount_for(ls: Seq<LineView>, k: Seq<char>, sel: int) -> int
    decreases ls.len(),
{
    if ls.len() == 0 {
        0
    } else {
        amount_for(ls.drop_last(), k, sel) + if ls.last().key == k {
            amount(ls.last(), sel)
        } else {
            0
        }
    }
}

/// Sum of one amount over all lines.
pub open spec fn amount_all(ls: Seq<LineView>, sel: int) -> int
    decreases ls.len(),
{
    if ls.len() == 0 {
        0
    } else {
        amount_all(ls.drop_last(), sel) + amount(ls.last(), sel)
    }
}

proof fn lemma_amount_for(ls: Seq<LineView>, k: Seq<char>)
    ensures
        amount_for(ls, k, 0) == qty_of(ls, k),
        amount_for(ls, k, 1) == cases_of(ls, k),
        amount_for(ls, k, 2) == total_of(ls, k),
    decreases ls.len(),
{
    if ls.len() > 0 {
        lemma_amount_for(ls.drop_last(), k);
    }
}

proof fn lemma_amount_all(ls: Seq<LineView>)
    ensures
        amount_all(ls, 1) == lines_cases(ls),
        amount_all(ls, 2) == lines_total(ls),
    decreases ls.len(),
{
    if ls.len() > 0 {
        lemma_amount_all(ls.drop_last());
    }
}

/// Sum over the keys `ks` of one amount of the lines with each key.
pub open spec fn keys_amount(ls: Seq<LineView>, ks: Seq<Seq<char>>, sel: int) -> int {
    seq_sum(ks.map_values(|k: Seq<char>| amount_for(ls, k, sel)))
}

proof fn lemma_keys_amount_push_line(ls: Seq<LineView>, l: LineView, ks: Seq<Seq<char>>, sel: int)
    requires
        ks.no_duplicates(),
    ensures
        keys_amount(ls.push(l), ks, sel) == keys_amount(ls, ks, sel) + if ks.contains(l.key) {
            amount(l, sel)
        } else {
            0
        },
    decreases ks.len(),
{
    let ls2 = ls.push(l);
    assert(ls2.drop_last() =~= ls);
    if ks.len() > 0 {
        let p = ks.drop_last();
        assert(p.no_duplicates());
        lemma_keys_amount_push_line(ls, l, p, sel);
        assert(ks.map_values(|k: Seq<char>| amount_for(ls2, k, sel)).drop_last() =~= p.map_values(
            |k: Seq<char>| amount_for(ls2, k, sel),
        ));
        assert(ks.map_values(|k: Seq<char>| amount_for(ls, k, sel)).drop_last() =~= p.map_values(
            |k: Seq<char>| amount_for(ls, k, sel),
        ));
        if ks.last() == l.key {
            assert(ks.contains(l.key));
            assert(!p.contains(l.key)) by {
                if p.contains(l.key) {
                    let j = choose|j: int| 0 <= j < p.len() && p[j] == l.key;
                    assert(ks[j] == ks[ks.len() - 1]);
                }
            }
        } else {
            assert(ks.contains(l.key) == p.contains(l.key)) by {
                if ks.contains(l.key) {
                    let j = choose|j: int| 0 <= j < ks.len() && ks[j] == l.key;
                    assert(p[j] == l.key);
                }
                if p.contains(l.key) {
                    let j = choose|j: int| 0 <= j < p.len() && p[j] == l.key;
                    assert(ks[j] == l.key);
                }
            }
        }
    }
}

proof fn lemma_absent_amount(ls: Seq<LineView>, k: Seq<char>, sel: int)
    requires
        !has_key(ls, k),
    ensures
        amount_for(ls, k, sel) == 0,
    decreases ls.len(),
{
    if ls.len() > 0 {
        assert(line_keys(ls).drop_last() =~= line_keys(ls.drop_last()));
        assert(!has_key(ls.drop_last(), k)) by {
            if has_key(ls.drop_last(), k) {
                let j = choose|j: int| 0 <= j < line_keys(ls.drop_last()).len() && line_keys(ls.drop_last())[j] == k;
                assert(line_keys(ls)[j] == k);
            }
        }
        assert(line_keys(ls)[ls.len() - 1] == ls.last().key);
        lemma_absent_amount(ls.drop_last(), k, sel);
    }
}

/// The per-key sums of an amount add up to its sum over all lines: grouping
/// loses and duplicates nothing.
pub proof fn lemma_group_amounts_sum(ls: Seq<LineView>, sel: int)
    ensures
        keys_amount(ls, distinct_keys(line_keys(ls)), sel) == amount_all(ls, sel),
    decreases ls.len(),
{
    let dk = distinct_keys(line_keys(ls));
    if ls.len() > 0 {
        let p = ls.drop_last();
        let l = ls.last();
        assert(p.push(l) =~= ls);
        lemma_group_amounts_sum(p, sel);
        let pk = distinct_keys(line_keys(p));
        lemma_distinct_keys(line_keys(p));
        assert(line_keys(ls).drop_last() =~= line_keys(p));
        assert(line_keys(ls).last() == l.key);
        lemma_keys_amount_push_line(p, l, pk, sel);
        if pk.contains(l.key) {
            assert(dk == pk);
        } else {
            assert(dk == pk.push(l.key));
            assert(dk.map_values(|k: Seq<char>| amount_for(ls, k, sel)).drop_last() =~= pk.map_values(
                |k: Seq<char>| amount_for(ls, k, sel),
            ));
            assert(!has_key(p, l.key)) by {
                if has_key(p, l.key) {
                    assert(line_keys(p).contains(l.key));
                }
            }
            lemma_absent_amount(p, l.key, sel);
        }
    } else {
        assert(dk =~= Seq::<Seq<char>>::empty());
        assert(dk.map_values(|k: Seq<char>| amount_for(ls, k, sel)) =~= Seq::<int>::empty());
    }
}

/// The group totals add up to the total of all lines.
pub proof fn lemma_group_totals_sum(ls: Seq<LineView>)
    ensures
        seq_sum(group_totals(ls)) == lines_total(ls),
{
    let dk = distinct_keys(line_keys(ls));
    lemma_group_amounts_sum(ls, 2);
    lemma_amount_all(ls);
    assert forall|i: int| 0 <= i < dk.len() implies #[trigger] group_totals(ls)[i] == dk.map_values(
        |k: Seq<char>| amount_for(ls, k, 2),
    )[i] by {
        lemma_amount_for(ls, dk[i]);
    }
    assert(group_totals(ls) =~= dk.map_values(|k: Seq<char>| amount_for(ls, k, 2)));
}

pub open spec fn row_totals_of(rows: Seq<AggRow>) -> Seq<int> {
    rows.map_values(|r: AggRow| r.total_cost as int)
}

/// A summary's grand total is the sum of its rows' total costs.
pub proof fn law_summary_grand_total(res: ProcessResult, ls: Seq<LineView>, with_cases: bool)
    requires
        is_summary_of(res, ls, with_cases),
    ensures
        res.grand_total == seq_sum(row_totals_of(res.rows@)),
{
    let dk = distinct_keys(line_keys(ls));
    let order = summary_order(res, ls, with_cases);
    let gt = group_totals(ls);
    lemma_order_onto(gt, order);
    assert(row_totals_of(res.rows@) =~= arranged(gt, order)) by {
        assert forall|a: int| 0 <= a < res.rows@.len() implies row_totals_of(res.rows@)[a] == arranged(gt, order)[a] by {
            assert(row_of_group(res.rows@[a], ls, dk[order[a] as int], with_cases));
        }
    }
    lemma_sum_permuted(gt, order);
    lemma_group_totals_sum(ls);
}

/// A summary's rows are ordered by non-increasing total cost.
pub proof fn law_summary_sorted(res: ProcessResult, ls: Seq<LineView>, with_cases: bool)
    requires
        is_summary_of(res, ls, with_cases),
    ensures
        forall|a: int, b: int|
            0 <= a < b < res.rows@.len() ==> res.rows@[a].total_cost >= res.rows@[b].total_cost,
{
    let dk = distinct_keys(line_keys(ls));
    let order = summary_order(res, ls, with_cases);
    assert forall|a: int, b: int| 0 <= a < b < res.rows@.len() implies res.rows@[a].total_cost >= res.rows@[b].total_cost by {
        assert(row_of_group(res.rows@[a], ls, dk[order[a] as int], with_cases));
        assert(row_of_group(res.rows@[b], ls, dk[order[b] as int], with_cases));
        assert(precedes(group_totals(ls), order[a] as int, order[b] as int));
    }
}

/// Every key of the lines heads exactly one row of the summary.
pub proof fn law_summary_one_row_per_key(res: ProcessResult, ls: Seq<LineView>, with_cases: bool)
    requires
        is_summary_of(res, ls, with_cases),
    ensures
        forall|k: Seq<char>| has_key(ls, k) ==> exists|a: int| 0 <= a < res.rows@.len() && res.rows@[a].id@ == k,
        forall|a: int| 0 <= a < res.rows@.len() ==> has_key(ls, #[trigger] res.rows@[a].id@),
        forall|a: int, b: int| 0 <= a < res.rows@.len() && 0 <= b < res.rows@.len() && a != b ==> res.rows@[a].id@ != res.rows@[b].id@,
{
    let dk = distinct_keys(line_keys(ls));
    let order = summary_order(res, ls, with_cases);
    lemma_order_onto(group_totals(ls), order);
    lemma_distinct_keys(line_keys(ls));
    assert forall|k: Seq<char>| has_key(ls, k) implies exists|a: int| 0 <= a < res.rows@.len() && res.rows@[a].id@ == k by {
        assert(dk.contains(k));
        let g = choose|g: int| 0 <= g < dk.len() && dk[g] == k;
        assert(listed(order, g));
        let a = choose|a: int| 0 <= a < order.len() && order[a] == g;
        assert(row_of_group(res.rows@[a], ls, dk[order[a] as int], with_cases));
    }
    assert forall|a: int| 0 <= a < res.rows@.len() implies has_key(ls, #[trigger] res.rows@[a].id@) by {
        assert(row_of_group(res.rows@[a], ls, dk[order[a] as int], with_cases));
        assert(dk.contains(dk[order[a] as int]));
    }
    assert forall|a: int, b: int| 0 <= a < res.rows@.len() && 0 <= b < res.rows@.len() && a != b implies res.rows@[a].id@ != res.rows@[b].id@ by {
        assert(row_of_group(res.rows@[a], ls, dk[order[a] as int], with_cases));
        assert(row_of_group(res.rows@[b], ls, dk[order[b] as int], with_cases));
        assert(order[a] != order[b]);
    }
}

/// The order behind a summary.
proof fn summary_order(res: ProcessResult, ls: Seq<LineView>, with_cases: bool) -> (order: Seq<usize>)
    requires
        is_summary_of(res, ls, with_cases),
    ensures
        is_desc_order(group_totals(ls), order),
        forall|a: int|
            0 <= a < res.rows@.len() ==> row_of_group(
                #[trigger] res.rows@[a],
                ls,
                distinct_keys(line_keys(ls))[order[a] as int],
                with_cases,
            ),
{
    let dk = distinct_keys(line_keys(ls));
    choose|order: Seq<usize>|
        #![trigger is_desc_order(group_totals(ls), order)]
        is_desc_order(group_totals(ls), order) && forall|a: int|
            0 <= a < res.rows@.len() ==> row_of_group(
                #[trigger] res.rows@[a],
                ls,
                dk[order[a] as int],
                with_cases,
            )
}

/// Values that are the per-key sums of amount `sel`, in a stable descending
/// order of the group totals, add up to the sum of that amount over all lines.
proof fn lemma_rows_sum(ls: Seq<LineView>, order: Seq<usize>, sel: int, vals: Seq<int>)
    requires
        is_desc_order(group_totals(ls), order),
        vals.len() == order.len(),
        forall|a: int|
            0 <= a < vals.len() ==> #[trigger] vals[a] == amount_for(
                ls,
                distinct_keys(line_keys(ls))[order[a] as int],
                sel,
            ),
    ensures
        seq_sum(vals) == amount_all(ls, sel),
{
    let dk = distinct_keys(line_keys(ls));
    let gs = dk.map_values(|k: Seq<char>| amount_for(ls, k, sel));
    lemma_order_onto(group_totals(ls), order);
    assert(vals =~= arranged(gs, order));
    lemma_sum_permuted(gs, order);
    lemma_group_amounts_sum(ls, sel);
}

proof fn lemma_present_all(s: Seq<Option<i128>>)
    requires
        forall|i: int| 0 <= i < s.len() ==> #[trigger] s[i] is Some,
    ensures
        present(s) == s.map_values(|o: Option<i128>| o->0 as int),
    decreases s.len(),
{
    if s.len() > 0 {
        lemma_present_all(s.drop_last());
        assert(s.drop_last().map_values(|o: Option<i128>| o->0 as int) =~= s.map_values(
            |o: Option<i128>| o->0 as int,
        ).drop_last());
    } else {
        assert(s.map_values(|o: Option<i128>| o->0 as int) =~= Seq::<int>::empty());
    }
}

/// An iHerb summary's total cases is the sum of its rows' case quantities.
pub proof fn law_summary_total_cases(res: ProcessResult, ls: Seq<LineView>)
    requires
        is_summary_of(res, ls, true),
    ensures
        res.total_cases == seq_sum(present(res.rows@.map_values(|r: AggRow| r.case_qty))),
{
    let dk = distinct_keys(line_keys(ls));
    let order = summary_order(res, ls, true);
    let cs = res.rows@.map_values(|r: AggRow| r.case_qty);
    assert forall|i: int| 0 <= i < cs.len() implies #[trigger] cs[i] is Some by {
        assert(row_of_group(res.rows@[i], ls, dk[order[i] as int], true));
    }
    lemma_present_all(cs);
    let vals = cs.map_values(|o: Option<i128>| o->0 as int);
    assert forall|a: int| 0 <= a < vals.len() implies #[trigger] vals[a] == amount_for(ls, dk[order[a] as int], 1) by {
        assert(row_of_group(res.rows@[a], ls, dk[order[a] as int], true));
        lemma_amount_for(ls, dk[order[a] as int]);
    }
    lemma_rows_sum(ls, order, 1, vals);
    lemma_amount_all(ls);
}

proof fn lemma_qty_is_cases(ls: Seq<LineView>)
    requires
        forall|i: int| 0 <= i < ls.len() ==> (#[trigger] ls[i]).qty == ls[i].cases,
    ensures
        amount_all(ls, 0) == amount_all(ls, 1),
    decreases ls.len(),
{
    if ls.len() > 0 {
        assert(ls.last() == ls[ls.len() - 1]);
        lemma_qty_is_cases(ls.drop_last());
    }
}

/// An Amazon summary's total cases is the sum of its rows' quantities ordered.
pub proof fn law_amazon_summary_total_cases(res: ProcessResult, t: Table, a: int, ti: int, q: int, c: int)
    requires
        is_summary_of(res, amazon_lines(t.rows@, a, ti, q, c), false),
    ensures
        res.total_cases == seq_sum(res.rows@.map_values(|r: AggRow| r.qty_ordered as int)),
{
    let ls = amazon_lines(t.rows@, a, ti, q, c);
    let dk = distinct_keys(line_keys(ls));
    let order = summary_order(res, ls, false);
    let vals = res.rows@.map_values(|r: AggRow| r.qty_ordered as int);
    assert forall|x: int| 0 <= x < vals.len() implies #[trigger] vals[x] == amount_for(ls, dk[order[x] as int], 0) by {
        assert(row_of_group(res.rows@[x], ls, dk[order[x] as int], false));
        lemma_amount_for(ls, dk[order[x] as int]);
    }
    lemma_rows_sum(ls, order, 0, vals);
    lemma_qty_is_cases(ls);
    lemma_amount_all(ls);
}

proof fn lemma_mapped_rows_has(ms: Seq<MappingView>, al: Seq<LineView>, il: Seq<LineView>, j: int)
    requires
        0 <= j < ms.len(),
        emits(ms[j], al, il),
    ensures
        mapped_rows(ms, al, il).contains(mapped_row(ms[j], al, il)),
    decreases ms.len(),
{
    let p = mapped_rows(ms.drop_last(), al, il);
    if j == ms.len() - 1 {
        assert(mapped_rows(ms, al, il)[p.len() as int] == mapped_row(ms[j], al, il));
    } else {
        assert(ms.drop_last()[j] == ms[j]);
        lemma_mapped_rows_has(ms.drop_last(), al, il, j);
        let x = choose|x: int| 0 <= x < p.len() && p[x] == mapped_row(ms[j], al, il);
        assert(mapped_rows(ms, al, il)[x] == p[x]);
    }
}

proof fn lemma_amazon_only_has(
    ks: Seq<Seq<char>>,
    ms: Seq<MappingView>,
    al: Seq<LineView>,
    il: Seq<LineView>,
    k: Seq<char>,
)
    requires
        ks.contains(k),
        !asin_used(ms, al, il, k),
    ensures
        amazon_only_rows(ks, ms, al, il).contains(amazon_row(al, k)),
    decreases ks.len(),
{
    let p = amazon_only_rows(ks.drop_last(), ms, al, il);
    if ks.last() == k {
        assert(amazon_only_rows(ks, ms, al, il)[p.len() as int] == amazon_row(al, k));
    } else {
        let j = choose|j: int| 0 <= j < ks.len() && ks[j] == k;
        assert(ks.drop_last()[j] == k);
        lemma_amazon_only_has(ks.drop_last(), ms, al, il, k);
        let x = choose|x: int| 0 <= x < p.len() && p[x] == amazon_row(al, k);
        assert(amazon_only_rows(ks, ms, al, il)[x] == p[x]);
    }
}

proof fn lemma_iherb_only_has(
    ks: Seq<Seq<char>>,
    ms: Seq<MappingView>,
    al: Seq<LineView>,
    il: Seq<LineView>,
    k: Seq<char>,
)
    requires
        ks.contains(k),
        !sku_used(ms, al, il, k),
        k != "nan"@,
    ensures
        iherb_only_rows(ks, ms, al, il).contains(iherb_row(il, k)),
    decreases ks.len(),
{
    let p = iherb_only_rows(ks.drop_last(), ms, al, il);
    if ks.last() == k {
        assert(iherb_only_rows(ks, ms, al, il)[p.len() as int] == iherb_row(il, k));
    } else {
        let j = choose|j: int| 0 <= j < ks.len() && ks[j] == k;
        assert(ks.drop_last()[j] == k);
        lemma_iherb_only_has(ks.drop_last(), ms, al, il, k);
        let x = choose|x: int| 0 <= x < p.len() && p[x] == iherb_row(il, k);
        assert(iherb_only_rows(ks, ms, al, il)[x] == p[x]);
    }
}

/// The order behind a combined report that is `Ok`.
proof fn combined_order(r: Result<CombinedResult, PoError>, u: Seq<CombinedRowView>) -> (order: Seq<usize>)
    requires
        is_combined_report(r, u),
        r is Ok,
    ensures
        is_desc_order(row_totals(u), order),
        row_views(r->Ok_0.rows@) == arranged(u, order),
        r->Ok_0.grand_total == seq_sum(row_totals(arranged(u, order))),
{
    reveal(is_combined_report);
    choose|order: Seq<usize>|
        #![trigger is_desc_order(row_totals(u), order)]
        is_desc_order(row_totals(u), order) && match r {
            Ok(res) => row_views(res.rows@) == arranged(u, order) && crate::combine::sums_fit(
                row_totals(arranged(u, order)),
            ) && res.grand_total == seq_sum(row_totals(arranged(u, order))),
            Err(e) => e == PoError::TotalTooLarge && !crate::combine::sums_fit(
                row_totals(arranged(u, order)),
            ),
        }
}

/// A row of `u` appears in the report.
proof fn lemma_report_shows(r: Result<CombinedResult, PoError>, u: Seq<CombinedRowView>, x: CombinedRowView)
    requires
        is_combined_report(r, u),
        r is Ok,
        u.contains(x),
    ensures
        exists|a: int| 0 <= a < r->Ok_0.rows@.len() && r->Ok_0.rows@[a]@ == x,
{
    let order = combined_order(r, u);
    lemma_order_onto(row_totals(u), order);
    let i = choose|i: int| 0 <= i < u.len() && u[i] == x;
    assert(listed(order, i));
    let a = choose|a: int| 0 <= a < order.len() && order[a] == i;
    assert(row_views(r->Ok_0.rows@)[a] == r->Ok_0.rows@[a]@);
}

/// Every mapping entry with orders on either platform gets its merged row:
/// Amazon and iHerb figures side by side.
pub proof fn law_combined_merges_mapped_products(
    ms: Seq<MappingView>,
    al: Seq<LineView>,
    il: Seq<LineView>,
    r: Result<CombinedResult, PoError>,
    j: int,
)
    requires
        is_combined_report(r, combined_rows(ms, al, il)),
        r is Ok,
        0 <= j < ms.len(),
        emits(ms[j], al, il),
    ensures
        exists|a: int| 0 <= a < r->Ok_0.rows@.len() && r->Ok_0.rows@[a]@ == mapped_row(ms[j], al, il),
{
    let u = combined_rows(ms, al, il);
    let m1 = mapped_rows(ms, al, il);
    let m2 = amazon_only_rows(distinct_keys(line_keys(al)), ms, al, il);
    let m3 = iherb_only_rows(distinct_keys(line_keys(il)), ms, al, il);
    assert(u == m1 + m2 + m3);
    lemma_mapped_rows_has(ms, al, il, j);
    let x = mapped_row(ms[j], al, il);
    let i = choose|i: int| 0 <= i < m1.len() && m1[i] == x;
    assert(u[i] == x);
    lemma_report_shows(r, u, x);
}

/// Every ASIN with Amazon orders heads a row of the combined summary: the row
/// of its mapping entry, or a row of its own (the mapping is no whitelist).
pub proof fn law_combined_shows_every_asin(
    ms: Seq<MappingView>,
    al: Seq<LineView>,
    il: Seq<LineView>,
    r: Result<CombinedResult, PoError>,
    k: Seq<char>,
)
    requires
        is_combined_report(r, combined_rows(ms, al, il)),
        r is Ok,
        has_key(al, k),
    ensures
        exists|a: int| 0 <= a < r->Ok_0.rows@.len() && r->Ok_0.rows@[a].id@ == k,
{
    let u = combined_rows(ms, al, il);
    let m1 = mapped_rows(ms, al, il);
    let m2 = amazon_only_rows(distinct_keys(line_keys(al)), ms, al, il);
    let m3 = iherb_only_rows(distinct_keys(line_keys(il)), ms, al, il);
    assert(u == m1 + m2 + m3);
    lemma_distinct_keys(line_keys(al));
    if asin_used(ms, al, il, k) {
        let j = choose|j: int| 0 <= j < ms.len() && emits(#[trigger] ms[j], al, il) && ms[j].asin.len() > 0 && ms[j].asin == k;
        lemma_mapped_rows_has(ms, al, il, j);
        let x = mapped_row(ms[j], al, il);
        let i = choose|i: int| 0 <= i < m1.len() && m1[i] == x;
        assert(u[i] == x);
        lemma_report_shows(r, u, x);
    } else {
        assert(distinct_keys(line_keys(al)).contains(k));
        lemma_amazon_only_has(distinct_keys(line_keys(al)), ms, al, il, k);
        let x = amazon_row(al, k);
        let i = choose|i: int| 0 <= i < m2.len() && m2[i] == x;
        assert(u[m1.len() + i] == x);
        lemma_report_shows(r, u, x);
    }
}

/// Every SKU with iHerb orders (other than `nan`) is shown: on the row of a
/// mapping entry with that SKU, or heading a row of its own.
pub proof fn law_combined_shows_every_sku(
    ms: Seq<MappingView>,
    al: Seq<LineView>,
    il: Seq<LineView>,
    r: Result<CombinedResult, PoError>,
    k: Seq<char>,
)
    requires
        is_combined_report(r, combined_rows(ms, al, il)),
        r is Ok,
        has_key(il, k),
        k != "nan"@,
    ensures
        sku_used(ms, al, il, k) || exists|a: int| 0 <= a < r->Ok_0.rows@.len() && r->Ok_0.rows@[a].id@ == k,
{
    let u = combined_rows(ms, al, il);
    let m1 = mapped_rows(ms, al, il);
    let m2 = amazon_only_rows(distinct_keys(line_keys(al)), ms, al, il);
    let m3 = iherb_only_rows(distinct_keys(line_keys(il)), ms, al, il);
    assert(u == m1 + m2 + m3);
    lemma_distinct_keys(line_keys(il));
    if !sku_used(ms, al, il, k) {
        assert(distinct_keys(line_keys(il)).contains(k));
        lemma_iherb_only_has(distinct_keys(line_keys(il)), ms, al, il, k);
        let x = iherb_row(il, k);
        let i = choose|i: int| 0 <= i < m3.len() && m3[i] == x;
        assert(u[m1.len() + m2.len() + i] == x);
        lemma_report_shows(r, u, x);
    }
}

/// The combined summary's rows are ordered by non-increasing total cost, and its
/// grand total is the sum of their total costs.
pub proof fn law_combined_sorted_and_totalled(r: Result<CombinedResult, PoError>, u: Seq<CombinedRowView>)
    requires
        is_combined_report(r, u),
        r is Ok,
    ensures
        forall|a: int, b: int|
            0 <= a < b < r->Ok_0.rows@.len() ==> r->Ok_0.rows@[a].total_cost >= r->Ok_0.rows@[b].total_cost,
        r->Ok_0.grand_total == seq_sum(row_totals(row_views(r->Ok_0.rows@))),
        r->Ok_0.grand_total == seq_sum(row_totals(u)),
{
    let order = combined_order(r, u);
    let rows = r->Ok_0.rows@;
    assert forall|a: int, b: int| 0 <= a < b < rows.len() implies rows[a].total_cost >= rows[b].total_cost by {
        assert(row_views(rows)[a] == rows[a]@ && row_views(rows)[b] == rows[b]@);
        assert(precedes(row_totals(u), order[a] as int, order[b] as int));
    }
    lemma_order_onto(row_totals(u), order);
    assert(row_totals(arranged(u, order)) =~= arranged(row_totals(u), order));
    lemma_sum_permuted(row_totals(u), order);
}

pub open spec fn or_zero(o: Option<int>) -> int {
    match o {
        Some(v) => v,
        None => 0,
    }
}

/// A combined row's totals are its Amazon figure plus its iHerb figure (an
/// absent figure counting zero); a pack gets no case total.
pub open spec fn row_rule(r: CombinedRowView) -> bool {
    &&& r.total_cost == or_zero(r.amz_cost) + or_zero(r.iherb_cost)
    &&& r.total_cases == if r.is_pack {
        None
    } else {
        Some(or_zero(r.amz_qty) + or_zero(r.iherb_cases))
    }
}

proof fn lemma_row_rule_parts(ms: Seq<MappingView>, al: Seq<LineView>, il: Seq<LineView>)
    ensures
        forall|i: int| 0 <= i < combined_rows(ms, al, il).len() ==> row_rule(#[trigger] combined_rows(ms, al, il)[i]),
{
    lemma_pack_mapped(ms, al, il);
    lemma_pack_amazon(distinct_keys(line_keys(al)), ms, al, il);
    lemma_pack_iherb(distinct_keys(line_keys(il)), ms, al, il);
    let m1 = mapped_rows(ms, al, il);
    let m2 = amazon_only_rows(distinct_keys(line_keys(al)), ms, al, il);
    let m3 = iherb_only_rows(distinct_keys(line_keys(il)), ms, al, il);
    assert forall|i: int| 0 <= i < combined_rows(ms, al, il).len() implies row_rule(#[trigger] combined_rows(ms, al, il)[i]) by {
        if i < m1.len() {
            assert(combined_rows(ms, al, il)[i] == m1[i]);
        } else if i < m1.len() + m2.len() {
            assert(combined_rows(ms, al, il)[i] == m2[i - m1.len()]);
        } else {
            assert(combined_rows(ms, al, il)[i] == m3[i - m1.len() - m2.len()]);
        }
    }
}

proof fn lemma_pack_mapped(ms: Seq<MappingView>, al: Seq<LineView>, il: Seq<LineView>)
    ensures
        forall|i: int| 0 <= i < mapped_rows(ms, al, il).len() ==> row_rule(#[trigger] mapped_rows(ms, al, il)[i]),
    decreases ms.len(),
{
    if ms.len() > 0 {
        lemma_pack_mapped(ms.drop_last(), al, il);
        let r = mapped_rows(ms, al, il);
        let p = mapped_rows(ms.drop_last(), al, il);
        assert forall|i: int| 0 <= i < r.len() implies row_rule(#[trigger] r[i]) by {
            if i < p.len() {
                assert(r[i] == p[i]);
            }
        }
    }
}

proof fn lemma_pack_amazon(ks: Seq<Seq<char>>, ms: Seq<MappingView>, al: Seq<LineView>, il: Seq<LineView>)
    ensures
        forall|i: int| 0 <= i < amazon_only_rows(ks, ms, al, il).len() ==> row_rule(#[trigger] amazon_only_rows(ks, ms, al, il)[i]),
    decreases ks.len(),
{
    if ks.len() > 0 {
        lemma_pack_amazon(ks.drop_last(), ms, al, il);
        let r = amazon_only_rows(ks, ms, al, il);
        let p = amazon_only_rows(ks.drop_last(), ms, al, il);
        assert forall|i: int| 0 <= i < r.len() implies row_rule(#[trigger] r[i]) by {
            if i < p.len() {
                assert(r[i] == p[i]);
            }
        }
    }
}

proof fn lemma_pack_iherb(ks: Seq<Seq<char>>, ms: Seq<MappingView>, al: Seq<LineView>, il: Seq<LineView>)
    ensures
        forall|i: int| 0 <= i < iherb_only_rows(ks, ms, al, il).len() ==> row_rule(#[trigger] iherb_only_rows(ks, ms, al, il)[i]),
    decreases ks.len(),
{
    if ks.len() > 0 {
        lemma_pack_iherb(ks.drop_last(), ms, al, il);
        let r = iherb_only_rows(ks, ms, al, il);
        let p = iherb_only_rows(ks.drop_last(), ms, al, il);
        assert forall|i: int| 0 <= i < r.len() implies row_rule(#[trigger] r[i]) by {
            if i < p.len() {
                assert(r[i] == p[i]);
            }
        }
    }
}

/// A pack product's row gets no combined case count.
pub proof fn law_combined_packs_have_no_case_total(
    ms: Seq<MappingView>,
    al: Seq<LineView>,
    il: Seq<LineView>,
    r: Result<CombinedResult, PoError>,
)
    requires
        is_combined_report(r, combined_rows(ms, al, il)),
        r is Ok,
    ensures
        forall|a: int| 0 <= a < r->Ok_0.rows@.len() && (#[trigger] r->Ok_0.rows@[a]).is_pack ==> r->Ok_0.rows@[a].total_cases is None,
{
    let u = combined_rows(ms, al, il);
    let order = combined_order(r, u);
    lemma_row_rule_parts(ms, al, il);
    assert forall|a: int| 0 <= a < r->Ok_0.rows@.len() && (#[trigger] r->Ok_0.rows@[a]).is_pack implies r->Ok_0.rows@[a].total_cases is None by {
        assert(row_views(r->Ok_0.rows@)[a] == r->Ok_0.rows@[a]@);
        assert(row_rule(u[order[a] as int]));
    }
}

/// Every combined row's total cost is its Amazon cost plus its iHerb cost, and
/// (but for packs) its total cases are its Amazon cases plus its iHerb cases.
pub proof fn law_combined_rows_add_up(
    ms: Seq<MappingView>,
    al: Seq<LineView>,
    il: Seq<LineView>,
    r: Result<CombinedResult, PoError>,
)
    requires
        is_combined_report(r, combined_rows(ms, al, il)),
        r is Ok,
    ensures
        forall|a: int| 0 <= a < r->Ok_0.rows@.len() ==> row_rule(#[trigger] r->Ok_0.rows@[a]@),
{
    let u = combined_rows(ms, al, il);
    let order = combined_order(r, u);
    lemma_row_rule_parts(ms, al, il);
    assert forall|a: int| 0 <= a < r->Ok_0.rows@.len() implies row_rule(#[trigger] r->Ok_0.rows@[a]@) by {
        assert(row_views(r->Ok_0.rows@)[a] == r->Ok_0.rows@[a]@);
        assert(row_rule(u[order[a] as int]));
    }
}

pub open spec fn big_enough(s: SectionView) -> bool {
    s.combined_total >= BIG_TICKET_THRESHOLD
}

proof fn lemma_big_mapped(ms: Seq<MappingView>, ae: Seq<Entry>, ie: Seq<Entry>)
    ensures
        forall|i: int| 0 <= i < mapped_sections(ms, ae, ie).len() ==> big_enough(#[trigger] mapped_sections(ms, ae, ie)[i]),
    decreases ms.len(),
{
    if ms.len() > 0 {
        lemma_big_mapped(ms.drop_last(), ae, ie);
        let r = mapped_sections(ms, ae, ie);
        let p = mapped_sections(ms.drop_last(), ae, ie);
        assert forall|i: int| 0 <= i < r.len() implies big_enough(#[trigger] r[i]) by {
            if i < p.len() {
                assert(r[i] == p[i]);
            }
        }
    }
}

proof fn lemma_big_amazon(ks: Seq<Seq<char>>, ms: Seq<MappingView>, ae: Seq<Entry>)
    ensures
        forall|i: int| 0 <= i < amazon_only_sections(ks, ms, ae).len() ==> big_enough(#[trigger] amazon_only_sections(ks, ms, ae)[i]),
    decreases ks.len(),
{
    if ks.len() > 0 {
        lemma_big_amazon(ks.drop_last(), ms, ae);
        let r = amazon_only_sections(ks, ms, ae);
        let p = amazon_only_sections(ks.drop_last(), ms, ae);
        assert forall|i: int| 0 <= i < r.len() implies big_enough(#[trigger] r[i]) by {
            if i < p.len() {
                assert(r[i] == p[i]);
            }
        }
    }
}

proof fn lemma_big_iherb(ks: Seq<Seq<char>>, ms: Seq<MappingView>, ie: Seq<Entry>)
    ensures
        forall|i: int| 0 <= i < iherb_only_sections(ks, ms, ie).len() ==> big_enough(#[trigger] iherb_only_sections(ks, ms, ie)[i]),
    decreases ks.len(),
{
    if ks.len() > 0 {
        lemma_big_iherb(ks.drop_last(), ms, ie);
        let r = iherb_only_sections(ks, ms, ie);
        let p = iherb_only_sections(ks.drop_last(), ms, ie);
        assert forall|i: int| 0 <= i < r.len() implies big_enough(#[trigger] r[i]) by {
            if i < p.len() {
                assert(r[i] == p[i]);
            }
        }
    }
}

/// Every section of the big-ticket breakdown reaches the $2,000 threshold, and
/// the sections come by non-increasing combined total.
pub proof fn law_bigticket_threshold_and_order(
    ms: Seq<MappingView>,
    ae: Seq<Entry>,
    ie: Seq<Entry>,
    secs: Seq<BigTicketSection>,
)
    requires
        is_breakdown(secs, bt_sections(ms, ae, ie)),
    ensures
        forall|a: int| 0 <= a < secs.len() ==> (#[trigger] secs[a]).combined_total >= BIG_TICKET_THRESHOLD,
        forall|a: int, b: int| 0 <= a < b < secs.len() ==> secs[a].combined_total >= secs[b].combined_total,
{
    let u = bt_sections(ms, ae, ie);
    let order = breakdown_order(secs, u);
    let m1 = mapped_sections(ms, ae, ie);
    let m2 = amazon_only_sections(distinct_keys(line_keys(entry_lines(ae))), ms, ae);
    let m3 = iherb_only_sections(distinct_keys(line_keys(entry_lines(ie))), ms, ie);
    assert(u == m1 + m2 + m3);
    lemma_big_mapped(ms, ae, ie);
    lemma_big_amazon(distinct_keys(line_keys(entry_lines(ae))), ms, ae);
    lemma_big_iherb(distinct_keys(line_keys(entry_lines(ie))), ms, ie);
    assert forall|i: int| 0 <= i < u.len() implies big_enough(#[trigger] u[i]) by {
        if i < m1.len() {
            assert(u[i] == m1[i]);
        } else if i < m1.len() + m2.len() {
            assert(u[i] == m2[i - m1.len()]);
        } else {
            assert(u[i] == m3[i - m1.len() - m2.len()]);
        }
    }
    let keys = section_totals(u);
    assert(keys.len() == u.len());
    assert(section_views(secs).len() == secs.len());
    assert(arranged(u, order).len() == order.len());
    assert(order.len() == secs.len());
    assert forall|a: int| 0 <= a < secs.len() implies (#[trigger] secs[a]).combined_total >= BIG_TICKET_THRESHOLD by {
        assert(section_views(secs)[a] == secs[a]@);
        assert(order[a] < keys.len());
        assert(arranged(u, order)[a] == u[order[a] as int]);
        assert(big_enough(u[order[a] as int]));
    }
    assert forall|a: int, b: int| 0 <= a < b < secs.len() implies secs[a].combined_total >= secs[b].combined_total by {
        assert(section_views(secs)[a] == secs[a]@ && section_views(secs)[b] == secs[b]@);
        assert(arranged(u, order)[a] == u[order[a] as int]);
        assert(arranged(u, order)[b] == u[order[b] as int]);
        assert(order[a] < keys.len() && order[b] < keys.len());
        assert(precedes(keys, order[a] as int, order[b] as int));
        assert(keys[order[a] as int] == u[order[a] as int].combined_total);
        assert(keys[order[b] as int] == u[order[b] as int].combined_total);
    }
}

proof fn breakdown_order(secs: Seq<BigTicketSection>, u: Seq<SectionView>) -> (order: Seq<usize>)
    requires
        is_breakdown(secs, u),
    ensures
        is_desc_order(section_totals(u), order),
        section_views(secs) == arranged(u, order),
{
    choose|order: Seq<usize>|
        #![trigger is_desc_order(section_totals(u), order)]
        is_desc_order(section_totals(u), order) && section_views(secs) == arranged(u, order)
}

/// The GRAND TOTAL cost cell of a summary's saved sheet shows the summary's
/// grand total.
pub proof fn law_summary_sheet_total(
    res: ProcessResult,
    ls: Seq<LineView>,
    with_cases: bool,
    platform: Seq<char>,
    r: Result<SheetPlan, PoError>,
)
    requires
        is_summary_of(res, ls, with_cases),
        aggregator_sheet_spec(res.rows@, platform, r),
        r is Ok,
    ensures
        cell_views(r->Ok_0.cells@).last() == money_at(res.rows@.len() + 1int, 3, res.grand_total as int, Style::MoneyBold),
{
    law_summary_grand_total(res, ls, with_cases);
    assert(agg_money_values(res.rows@) =~= row_totals_of(res.rows@));
}

/// The Total Cost cell of the GRAND TOTAL row of the saved combined summary
/// shows the combined summary's grand total.
pub proof fn law_combined_sheet_total(
    u: Seq<CombinedRowView>,
    res: Result<CombinedResult, PoError>,
    r: Result<SheetPlan, PoError>,
)
    requires
        is_combined_report(res, u),
        res is Ok,
        combined_sheet_spec(res->Ok_0.rows@, r),
        r is Ok,
    ensures
        cell_views(r->Ok_0.cells@).last() == money_at(
            res->Ok_0.rows@.len() + 1int,
            7,
            res->Ok_0.grand_total as int,
            Style::MoneyBold,
        ),
{
    law_combined_sorted_and_totalled(res, u);
    let rows = res->Ok_0.rows@;
    assert(combined_columns(rows)[5] =~= row_totals(row_views(rows)));
}

proof fn lemma_mapped_sections_has(ms: Seq<MappingView>, ae: Seq<Entry>, ie: Seq<Entry>, j: int)
    requires
        0 <= j < ms.len(),
        big_enough(mapping_section(ms[j], ae, ie)),
    ensures
        mapped_sections(ms, ae, ie).contains(mapping_section(ms[j], ae, ie)),
    decreases ms.len(),
{
    let p = mapped_sections(ms.drop_last(), ae, ie);
    if j == ms.len() - 1 {
        assert(mapped_sections(ms, ae, ie)[p.len() as int] == mapping_section(ms[j], ae, ie));
    } else {
        assert(ms.drop_last()[j] == ms[j]);
        lemma_mapped_sections_has(ms.drop_last(), ae, ie, j);
        let x = choose|x: int| 0 <= x < p.len() && p[x] == mapping_section(ms[j], ae, ie);
        assert(mapped_sections(ms, ae, ie)[x] == p[x]);
    }
}

proof fn lemma_amazon_sections_has(ks: Seq<Seq<char>>, ms: Seq<MappingView>, ae: Seq<Entry>, k: Seq<char>)
    requires
        ks.contains(k),
        !asin_mapped(ms, k),
        amount_of(ae, k) >= BIG_TICKET_THRESHOLD,
    ensures
        amazon_only_sections(ks, ms, ae).contains(amazon_section(ae, k)),
    decreases ks.len(),
{
    let p = amazon_only_sections(ks.drop_last(), ms, ae);
    if ks.last() == k {
        assert(amazon_only_sections(ks, ms, ae)[p.len() as int] == amazon_section(ae, k));
    } else {
        let j = choose|j: int| 0 <= j < ks.len() && ks[j] == k;
        assert(ks.drop_last()[j] == k);
        lemma_amazon_sections_has(ks.drop_last(), ms, ae, k);
        let x = choose|x: int| 0 <= x < p.len() && p[x] == amazon_section(ae, k);
        assert(amazon_only_sections(ks, ms, ae)[x] == p[x]);
    }
}

proof fn lemma_iherb_sections_has(ks: Seq<Seq<char>>, ms: Seq<MappingView>, ie: Seq<Entry>, k: Seq<char>)
    requires
        ks.contains(k),
        !sku_mapped(ms, k),
        amount_of(ie, k) >= BIG_TICKET_THRESHOLD,
    ensures
        iherb_only_sections(ks, ms, ie).contains(iherb_section(ie, k)),
    decreases ks.len(),
{
    let p = iherb_only_sections(ks.drop_last(), ms, ie);
    if ks.last() == k {
        assert(iherb_only_sections(ks, ms, ie)[p.len() as int] == iherb_section(ie, k));
    } else {
        let j = choose|j: int| 0 <= j < ks.len() && ks[j] == k;
        assert(ks.drop_last()[j] == k);
        lemma_iherb_sections_has(ks.drop_last(), ms, ie, k);
        let x = choose|x: int| 0 <= x < p.len() && p[x] == iherb_section(ie, k);
        assert(iherb_only_sections(ks, ms, ie)[x] == p[x]);
    }
}

/// A section of `u` appears in the breakdown.
proof fn lemma_breakdown_shows(secs: Seq<BigTicketSection>, u: Seq<SectionView>, x: SectionView)
    requires
        is_breakdown(secs, u),
        u.contains(x),
    ensures
        exists|a: int| 0 <= a < secs.len() && secs[a]@ == x,
{
    let order = breakdown_order(secs, u);
    lemma_order_onto(section_totals(u), order);
    assert(section_totals(u).len() == u.len());
    assert(section_views(secs).len() == secs.len());
    assert(arranged(u, order).len() == order.len());
    let i = choose|i: int| 0 <= i < u.len() && u[i] == x;
    assert(listed(order, i));
    let a = choose|a: int| 0 <= a < order.len() && order[a] == i;
    assert(section_views(secs)[a] == secs[a]@);
    assert(arranged(u, order)[a] == u[i]);
}

/// Every mapping entry whose combined Amazon and iHerb total reaches the
/// threshold gets its section in the breakdown.
pub proof fn law_bigticket_shows_big_mapped_products(
    ms: Seq<MappingView>,
    ae: Seq<Entry>,
    ie: Seq<Entry>,
    secs: Seq<BigTicketSection>,
    j: int,
)
    requires
        is_breakdown(secs, bt_sections(ms, ae, ie)),
        0 <= j < ms.len(),
        mapping_section(ms[j], ae, ie).combined_total >= BIG_TICKET_THRESHOLD,
    ensures
        exists|a: int| 0 <= a < secs.len() && secs[a]@ == mapping_section(ms[j], ae, ie),
{
    let u = bt_sections(ms, ae, ie);
    let m1 = mapped_sections(ms, ae, ie);
    let m2 = amazon_only_sections(distinct_keys(line_keys(entry_lines(ae))), ms, ae);
    let m3 = iherb_only_sections(distinct_keys(line_keys(entry_lines(ie))), ms, ie);
    assert(u == m1 + m2 + m3);
    lemma_mapped_sections_has(ms, ae, ie, j);
    let x = mapping_section(ms[j], ae, ie);
    let i = choose|i: int| 0 <= i < m1.len() && m1[i] == x;
    assert(u[i] == x);
    lemma_breakdown_shows(secs, u, x);
}

/// Every ASIN with Amazon orders that no mapping entry names, and whose total
/// reaches the threshold, gets a section of its own.
pub proof fn law_bigticket_shows_big_unmapped_asins(
    ms: Seq<MappingView>,
    ae: Seq<Entry>,
    ie: Seq<Entry>,
    secs: Seq<BigTicketSection>,
    k: Seq<char>,
)
    requires
        is_breakdown(secs, bt_sections(ms, ae, ie)),
        has_key(entry_lines(ae), k),
        !asin_mapped(ms, k),
        amount_of(ae, k) >= BIG_TICKET_THRESHOLD,
    ensures
        exists|a: int| 0 <= a < secs.len() && secs[a]@ == amazon_section(ae, k),
{
    let u = bt_sections(ms, ae, ie);
    let m1 = mapped_sections(ms, ae, ie);
    let ks = distinct_keys(line_keys(entry_lines(ae)));
    let m2 = amazon_only_sections(ks, ms, ae);
    let m3 = iherb_only_sections(distinct_keys(line_keys(entry_lines(ie))), ms, ie);
    assert(u == m1 + m2 + m3);
    lemma_distinct_keys(line_keys(entry_lines(ae)));
    assert(ks.contains(k));
    lemma_amazon_sections_has(ks, ms, ae, k);
    let x = amazon_section(ae, k);
    let i = choose|i: int| 0 <= i < m2.len() && m2[i] == x;
    assert(u[m1.len() + i] == x);
    lemma_breakdown_shows(secs, u, x);
}

/// Every iHerb SKU that no mapping entry names, and whose total reaches the
/// threshold, gets a section of its own.
pub proof fn law_bigticket_shows_big_unmapped_skus(
    ms: Seq<MappingView>,
    ae: Seq<Entry>,
    ie: Seq<Entry>,
    secs: Seq<BigTicketSection>,
    k: Seq<char>,
)
    requires
        is_breakdown(secs, bt_sections(ms, ae, ie)),
        has_key(entry_lines(ie), k),
        !sku_mapped(ms, k),
        amount_of(ie, k) >= BIG_TICKET_THRESHOLD,
    ensures
        exists|a: int| 0 <= a < secs.len() && secs[a]@ == iherb_section(ie, k),
{
    let u = bt_sections(ms, ae, ie);
    let m1 = mapped_sections(ms, ae, ie);
    let m2 = amazon_only_sections(distinct_keys(line_keys(entry_lines(ae))), ms, ae);
    let ks = distinct_keys(line_keys(entry_lines(ie)));
    let m3 = iherb_only_sections(ks, ms, ie);
    assert(u == m1 + m2 + m3);
    lemma_distinct_keys(line_keys(entry_lines(ie)));
    assert(ks.contains(k));
    lemma_iherb_sections_has(ks, ms, ie, k);
    let x = iherb_section(ie, k);
    let i = choose|i: int| 0 <= i < m3.len() && m3[i] == x;
    assert(u[m1.len() + m2.len() + i] == x);
    lemma_breakdown_shows(secs, u, x);
}

/// Two stable descending orders of the same keys agree up to position `a`.
proof fn lemma_desc_order_unique_upto(keys: Seq<int>, o1: Seq<usize>, o2: Seq<usize>, a: int)
    requires
        is_desc_order(keys, o1),
        is_desc_order(keys, o2),
        a < o1.len(),
    ensures
        forall|b: int| 0 <= b <= a ==> o1[b] == o2[b],
    decreases a + 1,
{
    if a >= 0 {
        lemma_desc_order_unique_upto(keys, o1, o2, a - 1);
        lemma_order_onto(keys, o1);
        lemma_order_onto(keys, o2);
        let x = o1[a] as int;
        let y = o2[a] as int;
        if x != y {
            assert(listed(o2, x));
            let b = choose|b: int| 0 <= b < o2.len() && o2[b] == x;
            assert(listed(o1, y));
            let c = choose|c: int| 0 <= c < o1.len() && o1[c] == y;
            if b < a {
                assert(o1[b] == o2[b]);
            } else if c < a {
                assert(o1[c] == o2[c]);
            } else {
                assert(precedes(keys, o2[a] as int, o2[b] as int));
                assert(precedes(keys, o1[a] as int, o1[c] as int));
            }
        }
    }
}

/// A stable descending order of given keys is unique.
pub proof fn lemma_desc_order_unique(keys: Seq<int>, o1: Seq<usize>, o2: Seq<usize>)
    requires
        is_desc_order(keys, o1),
        is_desc_order(keys, o2),
    ensures
        o1 == o2,
{
    lemma_desc_order_unique_upto(keys, o1, o2, o1.len() - 1);
    assert(o1 =~= o2);
}

/// Two reports of the same combined rows are equal.
proof fn lemma_combined_report_unique(
    r1: Result<CombinedResult, PoError>,
    r2: Result<CombinedResult, PoError>,
    u: Seq<CombinedRowView>,
)
    requires
        is_combined_report(r1, u),
        is_combined_report(r2, u),
    ensures
        same_combined(r1, r2),
{
    reveal(is_combined_report);
    let o1 = choose|order: Seq<usize>|
        #![trigger is_desc_order(row_totals(u), order)]
        is_desc_order(row_totals(u), order) && match r1 {
            Ok(res) => row_views(res.rows@) == arranged(u, order) && crate::combine::sums_fit(
                row_totals(arranged(u, order)),
            ) && res.grand_total == seq_sum(row_totals(arranged(u, order))),
            Err(e) => e == PoError::TotalTooLarge && !crate::combine::sums_fit(
                row_totals(arranged(u, order)),
            ),
        };
    let o2 = choose|order: Seq<usize>|
        #![trigger is_desc_order(row_totals(u), order)]
        is_desc_order(row_totals(u), order) && match r2 {
            Ok(res) => row_views(res.rows@) == arranged(u, order) && crate::combine::sums_fit(
                row_totals(arranged(u, order)),
            ) && res.grand_total == seq_sum(row_totals(arranged(u, order))),
            Err(e) => e == PoError::TotalTooLarge && !crate::combine::sums_fit(
                row_totals(arranged(u, order)),
            ),
        };
    lemma_desc_order_unique(row_totals(u), o1, o2);
}

/// Two combined summaries are the same report: equal rows in equal order and
/// equal grand totals, or the same error.
pub open spec fn same_combined(r1: Result<CombinedResult, PoError>, r2: Result<CombinedResult, PoError>) -> bool {
    match (r1, r2) {
        (Ok(a), Ok(b)) => row_views(a.rows@) == row_views(b.rows@) && a.grand_total == b.grand_total,
        (Err(e1), Err(e2)) => e1 == e2,
        _ => false,
    }
}

/// Building the combined summary twice from the same files gives the same
/// report: the same rows in the same order, and the same grand total.
pub proof fn law_combined_deterministic(
    amz: Seq<Result<Table, PoError>>,
    ih: Seq<Result<Table, PoError>>,
    mapping: Result<Table, PoError>,
    r1: Result<CombinedResult, PoError>,
    r2: Result<CombinedResult, PoError>,
)
    requires
        combined_spec(amz, ih, mapping, r1),
        combined_spec(amz, ih, mapping, r2),
    ensures
        same_combined(r1, r2),
{
    match mapping {
        Err(e) => {},
        Ok(mt) => match mapping_columns(mt.headers@) {
            Err(m) => {},
            Ok((s, a, n)) => {
                let ms = mapping_entries(mt.rows@, s, a, n, column_of(mt.headers@, "Pack?"@));
                match amazon_files_lines(amz) {
                    Err(e) => {},
                    Ok(al) => match iherb_files_lines(ih) {
                        Err(e) => {},
                        Ok(il) => {
                            if crate::group::lines_in_range(al) && crate::group::lines_in_range(il) {
                                lemma_combined_report_unique(r1, r2, combined_rows(ms, al, il));
                            }
                        },
                    },
                }
            },
        },
    }
}

/// Building the big-ticket breakdown twice from the same files gives the same
/// sections in the same order, or the same error.
pub proof fn law_bigticket_deterministic(
    amz: Seq<Result<Table, PoError>>,
    ih: Seq<Result<Table, PoError>>,
    mapping: Result<Table, PoError>,
    r1: Result<Vec<BigTicketSection>, PoError>,
    r2: Result<Vec<BigTicketSection>, PoError>,
)
    requires
        bigticket_spec(amz, ih, mapping, r1),
        bigticket_spec(amz, ih, mapping, r2),
    ensures
        match (r1, r2) {
            (Ok(a), Ok(b)) => section_views(a@) == section_views(b@),
            (Err(e1), Err(e2)) => e1 == e2,
            _ => false,
        },
{
    match mapping {
        Err(e) => {},
        Ok(mt) => match mapping_columns(mt.headers@) {
            Err(m) => {},
            Ok((s, a, n)) => {
                let ms = mapping_entries(mt.rows@, s, a, n, column_of(mt.headers@, "Pack?"@));
                match bt_files(amz, true) {
                    Err(e) => {},
                    Ok(ae) => match bt_files(ih, false) {
                        Err(e) => {},
                        Ok(ie) => {
                            if crate::group::lines_in_range(entry_lines(ae)) && crate::group::lines_in_range(entry_lines(ie)) {
                                let u = bt_sections(ms, ae, ie);
                                let o1 = breakdown_order(r1->Ok_0@, u);
                                let o2 = breakdown_order(r2->Ok_0@, u);
                                lemma_desc_order_unique(section_totals(u), o1, o2);
                            }
                        },
                    },
                }
            },
        },
    }
}

proof fn lemma_iherb_files_append(p: Seq<Result<Table, PoError>>, q: Seq<Result<Table, PoError>>)
    requires
        iherb_files_lines(p) is Ok,
        iherb_files_lines(q) is Ok,
    ensures
        iherb_files_lines(p + q) == Ok::<Seq<LineView>, PoError>(
            iherb_files_lines(p)->Ok_0 + iherb_files_lines(q)->Ok_0,
        ),
    decreases q.len(),
{
    if q.len() == 0 {
        assert(p + q =~= p);
        assert(iherb_files_lines(p)->Ok_0 + iherb_files_lines(q)->Ok_0 =~= iherb_files_lines(p)->Ok_0);
    } else {
        assert((p + q).drop_last() =~= p + q.drop_last());
        assert((p + q).last() == q.last());
        lemma_iherb_files_append(p, q.drop_last());
        let a = iherb_files_lines(p)->Ok_0;
        let b = iherb_files_lines(q.drop_last())->Ok_0;
        let c = crate::sources::iherb_file(q.last())->Ok_0;
        assert(a + b + c =~= a + (b + c));
    }
}

proof fn lemma_lines_append(lp: Seq<LineView>, lq: Seq<LineView>, k: Seq<char>)
    ensures
        qty_of(lp + lq, k) == qty_of(lp, k) + qty_of(lq, k),
        cases_of(lp + lq, k) == cases_of(lp, k) + cases_of(lq, k),
        total_of(lp + lq, k) == total_of(lp, k) + total_of(lq, k),
        has_key(lp + lq, k) == (has_key(lp, k) || has_key(lq, k)),
        has_key(lp, k) || has_key(lq, k) ==> first_title(lp + lq, k) == if has_key(lp, k) {
            first_title(lp, k)
        } else {
            first_title(lq, k)
        },
    decreases lq.len(),
{
    if lq.len() == 0 {
        assert(lp + lq =~= lp);
        assert(line_keys(lq).len() == 0);
        assert(!has_key(lq, k));
        assert(has_key(lp + lq, k) == has_key(lp, k));
    } else {
        let l = lp + lq;
        assert(l.drop_last() =~= lp + lq.drop_last());
        assert(l.last() == lq.last());
        lemma_lines_append(lp, lq.drop_last(), k);
        assert(line_keys(l) =~= line_keys(l.drop_last()).push(lq.last().key));
        assert(line_keys(lq) =~= line_keys(lq.drop_last()).push(lq.last().key));
        assert(has_key(l, k) == (has_key(l.drop_last(), k) || lq.last().key == k)) by {
            if has_key(l, k) && !has_key(l.drop_last(), k) {
                let j = choose|j: int| 0 <= j < line_keys(l).len() && line_keys(l)[j] == k;
                if j < line_keys(l.drop_last()).len() {
                    assert(line_keys(l.drop_last())[j] == k);
                }
            }
            if has_key(l.drop_last(), k) {
                let j = choose|j: int| 0 <= j < line_keys(l.drop_last()).len() && line_keys(l.drop_last())[j] == k;
                assert(line_keys(l)[j] == k);
            }
            if lq.last().key == k {
                assert(line_keys(l)[line_keys(l).len() - 1] == k);
            }
        }
        assert(has_key(lq, k) == (has_key(lq.drop_last(), k) || lq.last().key == k)) by {
            if has_key(lq, k) && !has_key(lq.drop_last(), k) {
                let j = choose|j: int| 0 <= j < line_keys(lq).len() && line_keys(lq)[j] == k;
                if j < line_keys(lq.drop_last()).len() {
                    assert(line_keys(lq.drop_last())[j] == k);
                }
            }
            if has_key(lq.drop_last(), k) {
                let j = choose|j: int| 0 <= j < line_keys(lq.drop_last()).len() && line_keys(lq.drop_last())[j] == k;
                assert(line_keys(lq)[j] == k);
            }
            if lq.last().key == k {
                assert(line_keys(lq)[line_keys(lq).len() - 1] == k);
            }
        }
        assert(has_key(l, k) == (has_key(lp, k) || has_key(lq, k)));
    }
}

/// Reading iHerb POs as one list gives the lines of the first list followed by
/// those of the second; so each SKU's cases and cost are the sums of its cases
/// and cost in the two lists, the SKUs are those of either list, and each SKU's
/// title is the one the first list gives it, else the second's.
pub proof fn law_iherb_files_concatenate(
    p: Seq<Result<Table, PoError>>,
    q: Seq<Result<Table, PoError>>,
    k: Seq<char>,
)
    requires
        iherb_files_lines(p) is Ok,
        iherb_files_lines(q) is Ok,
    ensures
        ({
            let lp = iherb_files_lines(p)->Ok_0;
            let lq = iherb_files_lines(q)->Ok_0;
            &&& iherb_files_lines(p + q) == Ok::<Seq<LineView>, PoError>(lp + lq)
            &&& cases_of(lp + lq, k) == cases_of(lp, k) + cases_of(lq, k)
            &&& total_of(lp + lq, k) == total_of(lp, k) + total_of(lq, k)
            &&& qty_of(lp + lq, k) == qty_of(lp, k) + qty_of(lq, k)
            &&& has_key(lp + lq, k) == (has_key(lp, k) || has_key(lq, k))
            &&& has_key(lp, k) || has_key(lq, k) ==> first_title(lp + lq, k) == if has_key(lp, k) {
                first_title(lp, k)
            } else {
                first_title(lq, k)
            }
        }),
{
    lemma_iherb_files_append(p, q);
    lemma_lines_append(iherb_files_lines(p)->Ok_0, iherb_files_lines(q)->Ok_0, k);
}

/// Units per case: 6 for exactly the seven premier SKUs TOT91451, TOT91471,
/// TOT91461, TOT91411, TOT91421, TOT91491 and TOT91441, 12 for every other SKU.
pub proof fn law_units_per_case(sku: Seq<char>)
    ensures
        crate::rules::spec_units_per_case(sku) == (if sku == "TOT91451"@ || sku == "TOT91471"@ || sku
            == "TOT91461"@ || sku == "TOT91411"@ || sku == "TOT91421"@ || sku == "TOT91491"@ || sku
            == "TOT91441"@ {
            6int
        } else {
            12int
        }),
{
}

/// An iHerb line's cases are its units divided by its SKU's units per case, in
/// the iHerb summary and in the big-ticket breakdown alike: cases times units
/// per case is twelve times the quantity read (quantities being held twelve
/// times finer than cases).
pub proof fn law_iherb_cases_are_units_per_case(
    upto: Seq<Vec<String>>,
    row: Seq<String>,
    s: int,
    t: int,
    q: int,
    u: int,
    po: Option<int>,
    dl: Option<int>,
    st: Option<int>,
)
    ensures
        ({
            let upc = crate::rules::spec_units_per_case(cell_text(row, s));
            let units = number_or_zero(cell_text(row, q));
            let e = crate::bigticket::iherb_entry(upto, row, s, q, u, po, dl, st);
            &&& crate::aggregate::iherb_line(row, s, t, q, u).cases * upc == 12 * units
            &&& e.0.cases * upc == 12 * units
            &&& e.1.qty * upc == 12 * units
            &&& e.1.total == units * number_or_zero(cell_text(row, u))
            &&& e.1.qty == crate::aggregate::iherb_line(row, s, t, q, u).cases
        }),
{
}

/// Every mapping entry whose SKU has iHerb orders, or whose (non-empty) ASIN has
/// Amazon orders, gives a row of the combined summary: id its ASIN (its SKU when
/// it has no ASIN), title its product name, its pack flag, and the Amazon and
/// iHerb costs of its ASIN and SKU.
pub proof fn law_combined_mapping_entries_give_rows(
    ms: Seq<MappingView>,
    al: Seq<LineView>,
    il: Seq<LineView>,
    r: Result<CombinedResult, PoError>,
    j: int,
)
    requires
        is_combined_report(r, combined_rows(ms, al, il)),
        r is Ok,
        0 <= j < ms.len(),
        (ms[j].asin.len() > 0 && has_key(al, ms[j].asin)) || has_key(il, ms[j].sku),
    ensures
        exists|a: int|
            0 <= a < r->Ok_0.rows@.len() && {
                let x = (#[trigger] r->Ok_0.rows@[a])@;
                &&& x.id == (if ms[j].asin.len() > 0 {
                    ms[j].asin
                } else {
                    ms[j].sku
                })
                &&& x.title == ms[j].name
                &&& x.is_pack == ms[j].is_pack
                &&& x.iherb_cost == (if has_key(il, ms[j].sku) {
                    Some(total_of(il, ms[j].sku))
                } else {
                    None
                })
                &&& x.amz_cost == (if ms[j].asin.len() > 0 && has_key(al, ms[j].asin) {
                    Some(total_of(al, ms[j].asin))
                } else {
                    None
                })
                &&& x.total_cost == (if ms[j].asin.len() > 0 && has_key(al, ms[j].asin) {
                    total_of(al, ms[j].asin)
                } else {
                    0
                }) + (if has_key(il, ms[j].sku) {
                    total_of(il, ms[j].sku)
                } else {
                    0
                })
            },
{
    assert(emits(ms[j], al, il));
    law_combined_merges_mapped_products(ms, al, il, r, j);
    let a = choose|a: int| 0 <= a < r->Ok_0.rows@.len() && r->Ok_0.rows@[a]@ == mapped_row(ms[j], al, il);
    assert(r->Ok_0.rows@[a]@ == mapped_row(ms[j], al, il));
}

/// Every cell of `a` is a cell of `b`.
pub open spec fn included(a: Seq<CellView>, b: Seq<CellView>) -> bool {
    forall|x: CellView| a.contains(x) ==> #[trigger] b.contains(x)
}

proof fn lemma_included_concat(a: Seq<CellView>, b: Seq<CellView>)
    ensures
        included(a, a + b),
        included(b, a + b),
{
    assert forall|x: CellView| a.contains(x) implies #[trigger] (a + b).contains(x) by {
        let k = choose|k: int| 0 <= k < a.len() && a[k] == x;
        assert((a + b)[k] == x);
    }
    assert forall|x: CellView| b.contains(x) implies #[trigger] (a + b).contains(x) by {
        let k = choose|k: int| 0 <= k < b.len() && b[k] == x;
        assert((a + b)[a.len() + k] == x);
    }
}

proof fn lemma_body_has_row(rows: Seq<CombinedRow>, a: int)
    requires
        0 <= a < rows.len(),
    ensures
        included(combined_row_cells(rows[a], a + 1), combined_body_cells(rows)),
    decreases rows.len(),
{
    let p = rows.drop_last();
    lemma_included_concat(combined_body_cells(p), combined_row_cells(rows.last(), rows.len() as int));
    if a < rows.len() - 1 {
        lemma_body_has_row(p, a);
        assert(p[a] == rows[a]);
    }
}

/// The cells of one combined row: id and title (grey for a pack), then each
/// present figure in its own column.
proof fn lemma_row_cells(r: CombinedRow, n: int)
    ensures
        ({
            let c = combined_row_cells(r, n);
            let idf = if r.is_pack {
                Style::Grey
            } else {
                Style::Plain
            };
            &&& c.contains(text_at(n, 0, r.id@, idf))
            &&& c.contains(text_at(n, 1, r.title@, idf))
            &&& r.amz_qty is Some ==> c.contains(qty_at(n, 2, r.amz_qty->Some_0 as int, Style::Number))
            &&& r.amz_cost is Some ==> c.contains(money_at(n, 3, r.amz_cost->Some_0 as int, Style::Money))
            &&& r.iherb_cases is Some ==> c.contains(qty_at(n, 4, r.iherb_cases->Some_0 as int, Style::Number))
            &&& r.iherb_cost is Some ==> c.contains(money_at(n, 5, r.iherb_cost->Some_0 as int, Style::Money))
            &&& r.total_cases is Some ==> c.contains(qty_at(n, 6, r.total_cases->Some_0 as int, Style::Number))
            &&& c.contains(money_at(n, 7, r.total_cost as int, Style::Money))
        }),
{
    let idf = if r.is_pack {
        Style::Grey
    } else {
        Style::Plain
    };
    let c0 = seq![text_at(n, 0, r.id@, idf), text_at(n, 1, r.title@, idf)];
    let o2 = crate::sheet::opt_qty(n, 2, r.amz_qty);
    let o3 = crate::sheet::opt_money(n, 3, r.amz_cost);
    let o4 = crate::sheet::opt_qty(n, 4, r.iherb_cases);
    let o5 = crate::sheet::opt_money(n, 5, r.iherb_cost);
    let o6 = crate::sheet::opt_qty(n, 6, r.total_cases);
    let o7 = seq![money_at(n, 7, r.total_cost as int, Style::Money)];
    let c1 = c0 + o2;
    let c2 = c1 + o3;
    let c3 = c2 + o4;
    let c4 = c3 + o5;
    let c5 = c4 + o6;
    let c6 = c5 + o7;
    assert(combined_row_cells(r, n) == c6);
    lemma_included_concat(c0, o2);
    lemma_included_concat(c1, o3);
    lemma_included_concat(c2, o4);
    lemma_included_concat(c3, o5);
    lemma_included_concat(c4, o6);
    lemma_included_concat(c5, o7);
    assert(c0[0] == text_at(n, 0, r.id@, idf));
    assert(c0[1] == text_at(n, 1, r.title@, idf));
    assert(o7[0] == money_at(n, 7, r.total_cost as int, Style::Money));
    if r.amz_qty is Some {
        assert(o2[0] == qty_at(n, 2, r.amz_qty->Some_0 as int, Style::Number));
    }
    if r.amz_cost is Some {
        assert(o3[0] == money_at(n, 3, r.amz_cost->Some_0 as int, Style::Money));
    }
    if r.iherb_cases is Some {
        assert(o4[0] == qty_at(n, 4, r.iherb_cases->Some_0 as int, Style::Number));
    }
    if r.iherb_cost is Some {
        assert(o5[0] == money_at(n, 5, r.iherb_cost->Some_0 as int, Style::Money));
    }
    if r.total_cases is Some {
        assert(o6[0] == qty_at(n, 6, r.total_cases->Some_0 as int, Style::Number));
    }
}

/// Row `a` of the combined summary is sheet row `a + 1`: its id and title in
/// columns 0 and 1 (grey for a pack), its Amazon cases and cost in columns 2 and
/// 3, its iHerb cases and cost in columns 4 and 5, its total cases in column 6
/// (each only when present) and its total cost in column 7.
pub proof fn law_combined_sheet_columns(rows: Seq<CombinedRow>, r: Result<SheetPlan, PoError>, a: int)
    requires
        combined_sheet_spec(rows, r),
        r is Ok,
        0 <= a < rows.len(),
    ensures
        ({
            let c = cell_views(r->Ok_0.cells@);
            let x = rows[a];
            let n = a + 1;
            let idf = if x.is_pack {
                Style::Grey
            } else {
                Style::Plain
            };
            &&& c.contains(text_at(n, 0, x.id@, idf))
            &&& c.contains(text_at(n, 1, x.title@, idf))
            &&& x.amz_qty is Some ==> c.contains(qty_at(n, 2, x.amz_qty->Some_0 as int, Style::Number))
            &&& x.amz_cost is Some ==> c.contains(money_at(n, 3, x.amz_cost->Some_0 as int, Style::Money))
            &&& x.iherb_cases is Some ==> c.contains(qty_at(n, 4, x.iherb_cases->Some_0 as int, Style::Number))
            &&& x.iherb_cost is Some ==> c.contains(money_at(n, 5, x.iherb_cost->Some_0 as int, Style::Money))
            &&& x.total_cases is Some ==> c.contains(qty_at(n, 6, x.total_cases->Some_0 as int, Style::Number))
            &&& c.contains(money_at(n, 7, x.total_cost as int, Style::Money))
        }),
{
    let head = heading_cells(crate::sheet::combined_header_texts(), 0, Style::Heading);
    let body = combined_body_cells(rows);
    let c = cell_views(r->Ok_0.cells@);
    let tail = c.skip((head + body).len() as int);
    assert(c == (head + body) + tail);
    lemma_included_concat(head, body);
    lemma_included_concat(head + body, tail);
    lemma_body_has_row(rows, a);
    lemma_row_cells(rows[a], a + 1);
}

proof fn lemma_details_has(ds: Seq<PoDetailRow>, start: int, amazon: bool, j: int)
    requires
        0 <= j < ds.len(),
    ensures
        included(detail_cells(ds[j], start + j, amazon), details_cells(ds, start, amazon)),
    decreases ds.len(),
{
    let p = ds.drop_last();
    lemma_included_concat(details_cells(p, start, amazon), detail_cells(ds.last(), start + ds.len() - 1, amazon));
    if j < ds.len() - 1 {
        lemma_details_has(p, start, amazon, j);
        assert(p[j] == ds[j]);
    }
}

proof fn lemma_sections_have(ss: Seq<BigTicketSection>, i: int)
    requires
        0 <= i < ss.len(),
    ensures
        included(section_cells(ss[i], sections_height(ss.take(i))), bigticket_cells(ss)),
    decreases ss.len(),
{
    let p = ss.drop_last();
    lemma_included_concat(bigticket_cells(p), section_cells(ss.last(), sections_height(p)));
    if i == ss.len() - 1 {
        assert(ss.take(i) =~= p);
    } else {
        lemma_sections_have(p, i);
        assert(p.take(i) =~= ss.take(i));
        assert(p[i] == ss[i]);
    }
}

/// The cells of one block of PO lines: the subheading over columns 2 to 7 on its
/// first row, then each line on a row of its own with its PO, date, ship-to,
/// cases and cost in columns 3, 4, 5, 6 and 7.
proof fn lemma_block_lines(ds: Seq<PoDetailRow>, start: int, amazon: bool)
    requires
        ds.len() > 0,
    ensures
        ({
            let c = block_cells(ds, start, amazon);
            &&& c.contains(text_at(start, 3, "PO #"@, Style::Subheading))
            &&& c.contains(text_at(start, 4, if amazon { "Expected Date"@ } else { "Delivery Date"@ }, Style::Subheading))
            &&& c.contains(text_at(start, 5, if amazon { "Ship To"@ } else { "Ship To State"@ }, Style::Subheading))
            &&& forall|j: int| 0 <= j < ds.len() ==> {
                &&& c.contains(text_at(start + 1 + j, 3, (#[trigger] ds[j]).po@, Style::Plain))
                &&& c.contains(text_at(start + 1 + j, 4, ds[j].date@, Style::Plain))
                &&& c.contains(text_at(start + 1 + j, 5, ds[j].ship_to@, Style::Plain))
                &&& c.contains(qty_at(start + 1 + j, 6, ds[j].qty as int, Style::Number))
                &&& c.contains(money_at(start + 1 + j, 7, ds[j].total as int, Style::Money))
            }
        }),
{
    let h = heading_cells(block_heading_texts(amazon), start, Style::Subheading);
    let d = details_cells(ds, start + 1, amazon);
    lemma_included_concat(h, d);
    assert(h[3] == text_at(start, 3, "PO #"@, Style::Subheading));
    assert(h[4] == text_at(start, 4, if amazon { "Expected Date"@ } else { "Delivery Date"@ }, Style::Subheading));
    assert(h[5] == text_at(start, 5, if amazon { "Ship To"@ } else { "Ship To State"@ }, Style::Subheading));
    assert forall|j: int| 0 <= j < ds.len() implies {
        let c = block_cells(ds, start, amazon);
        &&& c.contains(text_at(start + 1 + j, 3, (#[trigger] ds[j]).po@, Style::Plain))
        &&& c.contains(text_at(start + 1 + j, 4, ds[j].date@, Style::Plain))
        &&& c.contains(text_at(start + 1 + j, 5, ds[j].ship_to@, Style::Plain))
        &&& c.contains(qty_at(start + 1 + j, 6, ds[j].qty as int, Style::Number))
        &&& c.contains(money_at(start + 1 + j, 7, ds[j].total as int, Style::Money))
    } by {
        lemma_details_has(ds, start + 1, amazon, j);
        let e = detail_cells(ds[j], start + 1 + j, amazon);
        assert(e[1] == text_at(start + 1 + j, 3, ds[j].po@, Style::Plain));
        assert(e[2] == text_at(start + 1 + j, 4, ds[j].date@, Style::Plain));
        assert(e[3] == text_at(start + 1 + j, 5, ds[j].ship_to@, Style::Plain));
        assert(e[4] == qty_at(start + 1 + j, 6, ds[j].qty as int, Style::Number));
        assert(e[5] == money_at(start + 1 + j, 7, ds[j].total as int, Style::Money));
    }
}

/// In the Big Ticket Breakdown sheet, section `i` starts on the row after the
/// rows of the sections before it. Its Amazon block, when it has PO lines, has
/// its subheading on the next row and one row per line below, each with the
/// line's PO, date (under "Expected Date"), ship-to (under "Ship To"), cases and
/// cost in columns 3 to 7; its iHerb block follows in the same layout, under
/// "Delivery Date" and "Ship To State".
pub proof fn law_bigticket_sheet_po_lines(ss: Seq<BigTicketSection>, p: SheetPlan, i: int)
    requires
        bigticket_sheet_spec(ss, p),
        0 <= i < ss.len(),
    ensures
        ({
            let c = cell_views(p.cells@);
            let h = sections_height(ss.take(i));
            let am = ss[i].amz_rows@;
            let ih = ss[i].iherb_rows@;
            let hi = h + 1 + (if am.len() == 0 {
                0
            } else {
                am.len() + 1
            });
            &&& am.len() > 0 ==> c.contains(text_at(h + 1, 4, "Expected Date"@, Style::Subheading))
                && c.contains(text_at(h + 1, 5, "Ship To"@, Style::Subheading))
            &&& forall|j: int| 0 <= j < am.len() ==> {
                &&& c.contains(text_at(h + 2 + j, 3, (#[trigger] am[j]).po@, Style::Plain))
                &&& c.contains(text_at(h + 2 + j, 4, am[j].date@, Style::Plain))
                &&& c.contains(text_at(h + 2 + j, 5, am[j].ship_to@, Style::Plain))
                &&& c.contains(qty_at(h + 2 + j, 6, am[j].qty as int, Style::Number))
                &&& c.contains(money_at(h + 2 + j, 7, am[j].total as int, Style::Money))
            }
            &&& ih.len() > 0 ==> c.contains(text_at(hi, 4, "Delivery Date"@, Style::Subheading))
                && c.contains(text_at(hi, 5, "Ship To State"@, Style::Subheading))
            &&& forall|j: int| 0 <= j < ih.len() ==> {
                &&& c.contains(text_at(hi + 1 + j, 3, (#[trigger] ih[j]).po@, Style::Plain))
                &&& c.contains(text_at(hi + 1 + j, 4, ih[j].date@, Style::Plain))
                &&& c.contains(text_at(hi + 1 + j, 5, ih[j].ship_to@, Style::Plain))
                &&& c.contains(qty_at(hi + 1 + j, 6, ih[j].qty as int, Style::Number))
                &&& c.contains(money_at(hi + 1 + j, 7, ih[j].total as int, Style::Money))
            }
        }),
{
    let sec = ss[i];
    let h = sections_height(ss.take(i));
    let am = sec.amz_rows@;
    let ih = sec.iherb_rows@;
    lemma_sections_have(ss, i);
    let top = seq![
        text_at(h, 0, sec.id@ + "   "@ + sec.name@, Style::Heading),
        text_at(h, 6, "Combined Total"@, Style::Heading),
        money_at(h, 7, sec.combined_total as int, Style::MoneyBold),
    ];
    let ba = block_cells(am, h + 1, true);
    let bi = block_cells(ih, h + 1 + crate::sheet::block_height(am), false);
    assert(section_cells(sec, h) == (top + ba) + bi);
    lemma_included_concat(top, ba);
    lemma_included_concat(top + ba, bi);
    if am.len() > 0 {
        lemma_block_lines(am, h + 1, true);
    }
    if ih.len() > 0 {
        lemma_block_lines(ih, h + 1 + crate::sheet::block_height(am), false);
    }
}


proof fn lemma_mapped_rows_from(ms: Seq<MappingView>, al: Seq<LineView>, il: Seq<LineView>, i: int)
    requires
        0 <= i < mapped_rows(ms, al, il).len(),
    ensures
        exists|j: int|
            0 <= j < ms.len() && emits(#[trigger] ms[j], al, il) && mapped_rows(ms, al, il)[i]
                == mapped_row(ms[j], al, il),
    decreases ms.len(),
{
    let p = mapped_rows(ms.drop_last(), al, il);
    if i < p.len() {
        lemma_mapped_rows_from(ms.drop_last(), al, il, i);
        let j = choose|j: int|
            0 <= j < ms.drop_last().len() && emits(#[trigger] ms.drop_last()[j], al, il) && p[i]
                == mapped_row(ms.drop_last()[j], al, il);
        assert(ms.drop_last()[j] == ms[j]);
        assert(mapped_rows(ms, al, il)[i] == p[i]);
    } else {
        assert(emits(ms[ms.len() - 1], al, il));
    }
}

proof fn lemma_amazon_only_rows_have_no_iherb(
    ks: Seq<Seq<char>>,
    ms: Seq<MappingView>,
    al: Seq<LineView>,
    il: Seq<LineView>,
    i: int,
)
    requires
        0 <= i < amazon_only_rows(ks, ms, al, il).len(),
    ensures
        amazon_only_rows(ks, ms, al, il)[i].iherb_cost is None,
    decreases ks.len(),
{
    let p = amazon_only_rows(ks.drop_last(), ms, al, il);
    if i < p.len() {
        lemma_amazon_only_rows_have_no_iherb(ks.drop_last(), ms, al, il, i);
        assert(amazon_only_rows(ks, ms, al, il)[i] == p[i]);
    }
}

proof fn lemma_iherb_only_rows_unused(
    ks: Seq<Seq<char>>,
    ms: Seq<MappingView>,
    al: Seq<LineView>,
    il: Seq<LineView>,
    i: int,
)
    requires
        0 <= i < iherb_only_rows(ks, ms, al, il).len(),
    ensures
        !sku_used(ms, al, il, iherb_only_rows(ks, ms, al, il)[i].id),
    decreases ks.len(),
{
    let p = iherb_only_rows(ks.drop_last(), ms, al, il);
    if i < p.len() {
        lemma_iherb_only_rows_unused(ks.drop_last(), ms, al, il, i);
        assert(iherb_only_rows(ks, ms, al, il)[i] == p[i]);
    }
}

/// A SKU of a mapping entry that has orders (iHerb orders for the SKU, or Amazon
/// orders for its non-empty ASIN) gets no iHerb row of its own: every row headed
/// by that SKU that carries iHerb figures is the row of a mapping entry, one whose
/// ASIN is that SKU or which has no ASIN and that SKU, with the entry's name and
/// pack flag.
pub proof fn law_combined_mapped_sku_has_no_own_row(
    ms: Seq<MappingView>,
    al: Seq<LineView>,
    il: Seq<LineView>,
    r: Result<CombinedResult, PoError>,
    j: int,
)
    requires
        is_combined_report(r, combined_rows(ms, al, il)),
        r is Ok,
        0 <= j < ms.len(),
        (ms[j].asin.len() > 0 && has_key(al, ms[j].asin)) || has_key(il, ms[j].sku),
    ensures
        forall|a: int|
            0 <= a < r->Ok_0.rows@.len() && (#[trigger] r->Ok_0.rows@[a])@.id == ms[j].sku
                && r->Ok_0.rows@[a]@.iherb_cost is Some ==> exists|j2: int|
                0 <= j2 < ms.len() && (if ms[j2].asin.len() > 0 {
                    ms[j2].asin == ms[j].sku
                } else {
                    ms[j2].sku == ms[j].sku
                }) && r->Ok_0.rows@[a]@.title == (#[trigger] ms[j2]).name && r->Ok_0.rows@[a]@.is_pack
                    == ms[j2].is_pack,
{
    let u = combined_rows(ms, al, il);
    let m1 = mapped_rows(ms, al, il);
    let m2 = amazon_only_rows(distinct_keys(line_keys(al)), ms, al, il);
    let m3 = iherb_only_rows(distinct_keys(line_keys(il)), ms, al, il);
    assert(u == m1 + m2 + m3);
    let order = combined_order(r, u);
    let k = ms[j].sku;
    assert(emits(ms[j], al, il));
    assert(sku_used(ms, al, il, k));
    assert forall|a: int|
        0 <= a < r->Ok_0.rows@.len() && (#[trigger] r->Ok_0.rows@[a])@.id == k
            && r->Ok_0.rows@[a]@.iherb_cost is Some implies exists|j2: int|
        0 <= j2 < ms.len() && (if ms[j2].asin.len() > 0 {
            ms[j2].asin == k
        } else {
            ms[j2].sku == k
        }) && r->Ok_0.rows@[a]@.title == (#[trigger] ms[j2]).name && r->Ok_0.rows@[a]@.is_pack
            == ms[j2].is_pack by {
        assert(row_views(r->Ok_0.rows@)[a] == r->Ok_0.rows@[a]@);
        let i = order[a] as int;
        let x = u[i];
        assert(x == r->Ok_0.rows@[a]@);
        if i < m1.len() {
            assert(x == m1[i]);
            lemma_mapped_rows_from(ms, al, il, i);
            let j2 = choose|j2: int|
                0 <= j2 < ms.len() && emits(#[trigger] ms[j2], al, il) && m1[i] == mapped_row(ms[j2], al, il);
            assert(0 <= j2 < ms.len() && (if ms[j2].asin.len() > 0 {
                ms[j2].asin == k
            } else {
                ms[j2].sku == k
            }) && x.title == ms[j2].name && x.is_pack == ms[j2].is_pack);
        } else if i < m1.len() + m2.len() {
            assert(x == m2[i - m1.len()]);
            lemma_amazon_only_rows_have_no_iherb(distinct_keys(line_keys(al)), ms, al, il, i - m1.len());
        } else {
            assert(x == m3[i - m1.len() - m2.len()]);
            lemma_iherb_only_rows_unused(distinct_keys(line_keys(il)), ms, al, il, i - m1.len() - m2.len());
        }
    }
}

} // verus!
