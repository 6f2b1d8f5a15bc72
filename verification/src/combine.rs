//! The combined Amazon + iHerb summary (the Combined Summary report).
use crate::group::{
    cases_of, distinct_keys, first_title, group_lines_indexed, groups_of, has_key, lemma_distinct_keys,
    line_keys, line_views, lines_in_range, mass, qty_of, total_of, within, Group, Line, LineView,
};
use crate::keys::{index_keys, key_index_find};
use crate::order::{ints, is_desc_order, order_desc};
use crate::sources::{
    amazon_file_lines, amazon_files_lines, iherb_file_lines, iherb_files_lines,
    load_mapping, mapping_columns, mapping_entries, mapping_views, Mapping, MappingView,
};
use crate::table::{PoError, Table};
use crate::text::{column_of, str_eq};
use indexmap::IndexMap;
use vstd::prelude::*;

verus! {

/// One row of the combined summary. Quantities are in units of 1/1200000000, money
/// in units of 10^-16.
pub struct CombinedRow {
    pub id: String,
    pub title: String,
    pub amz_qty: Option<i128>,
    pub amz_cost: Option<i128>,
    pub iherb_cases: Option<i128>,
    pub iherb_cost: Option<i128>,
    pub total_cases: Option<i128>,
    pub total_cost: i128,
    pub is_pack: bool,
}

pub struct CombinedRowView {
    pub id: Seq<char>,
    pub title: Seq<char>,
    pub amz_qty: Option<int>,
    pub amz_cost: Option<int>,
    pub iherb_cases: Option<int>,
    pub iherb_cost: Option<int>,
    pub total_cases: Option<int>,
    pub total_cost: int,
    pub is_pack: bool,
}

pub open spec fn oi(x: Option<i128>) -> Option<int> {
    match x {
        Some(v) => Some(v as int),
        None => None,
    }
}

impl View for CombinedRow {
    type V = CombinedRowView;

    open spec fn view(&self) -> CombinedRowView {
        CombinedRowView {
            id: self.id@,
            title: self.title@,
            amz_qty: oi(self.amz_qty),
            amz_cost: oi(self.amz_cost),
            iherb_cases: oi(self.iherb_cases),
            iherb_cost: oi(self.iherb_cost),
            total_cases: oi(self.total_cases),
            total_cost: self.total_cost as int,
            is_pack: self.is_pack,
        }
    }
}

impl CombinedRow {
    /// A copy of the row.
    pub fn copy(&self) -> (r: CombinedRow)
        ensures
            r@ == self@,
    {
        CombinedRow {
            id: self.id.clone(),
            title: self.title.clone(),
            amz_qty: self.amz_qty,
            amz_cost: self.amz_cost,
            iherb_cases: self.iherb_cases,
            iherb_cost: self.iherb_cost,
            total_cases: self.total_cases,
            total_cost: self.total_cost,
            is_pack: self.is_pack,
        }
    }
}

pub open spec fn row_views(rs: Seq<CombinedRow>) -> Seq<CombinedRowView> {
    rs.map_values(|r: CombinedRow| r@)
}

/// The combined summary: its rows and the sum of their total costs.
pub struct CombinedResult {
    pub rows: Vec<CombinedRow>,
    pub grand_total: i128,
}

pub open spec fn opt_if(b: bool, v: int) -> Option<int> {
    if b {
        Some(v)
    } else {
        None
    }
}

/// The mapping entry's ASIN has Amazon orders.
pub open spec fn amz_present(m: MappingView, al: Seq<LineView>) -> bool {
    m.asin.len() > 0 && has_key(al, m.asin)
}

/// The mapping entry's SKU has iHerb orders.
pub open spec fn ih_present(m: MappingView, il: Seq<LineView>) -> bool {
    has_key(il, m.sku)
}

/// The mapping entry gives a row: it has orders on at least one platform.
pub open spec fn emits(m: MappingView, al: Seq<LineView>, il: Seq<LineView>) -> bool {
    amz_present(m, al) || ih_present(m, il)
}

/// The row of a mapping entry: Amazon and iHerb figures side by side; a pack gets
/// no combined case count.
pub open spec fn mapped_row(m: MappingView, al: Seq<LineView>, il: Seq<LineView>) -> CombinedRowView {
    let a = amz_present(m, al);
    let i = ih_present(m, il);
    let aq = if a {
        qty_of(al, m.asin)
    } else {
        0
    };
    let at = if a {
        total_of(al, m.asin)
    } else {
        0
    };
    let ic = if i {
        cases_of(il, m.sku)
    } else {
        0
    };
    let it = if i {
        total_of(il, m.sku)
    } else {
        0
    };
    CombinedRowView {
        id: if m.asin.len() > 0 {
            m.asin
        } else {
            m.sku
        },
        title: m.name,
        amz_qty: opt_if(a, qty_of(al, m.asin)),
        amz_cost: opt_if(a, total_of(al, m.asin)),
        iherb_cases: opt_if(i, cases_of(il, m.sku)),
        iherb_cost: opt_if(i, total_of(il, m.sku)),
        total_cases: if m.is_pack {
            None
        } else {
            Some(aq + ic)
        },
        total_cost: at + it,
        is_pack: m.is_pack,
    }
}

/// The rows of the mapping entries that have orders, in mapping order.
pub open spec fn mapped_rows(ms: Seq<MappingView>, al: Seq<LineView>, il: Seq<LineView>) -> Seq<
    CombinedRowView,
>
    decreases ms.len(),
{
    if ms.len() == 0 {
        Seq::empty()
    } else {
        let p = mapped_rows(ms.drop_last(), al, il);
        if emits(ms.last(), al, il) {
            p.push(mapped_row(ms.last(), al, il))
        } else {
            p
        }
    }
}

/// ASIN `k` is shown on the row of some mapping entry.
pub open spec fn asin_used(ms: Seq<MappingView>, al: Seq<LineView>, il: Seq<LineView>, k: Seq<char>) -> bool {
    exists|j: int|
        0 <= j < ms.len() && emits(#[trigger] ms[j], al, il) && ms[j].asin.len() > 0 && ms[j].asin
            == k
}

/// SKU `k` is shown on the row of some mapping entry.
pub open spec fn sku_used(ms: Seq<MappingView>, al: Seq<LineView>, il: Seq<LineView>, k: Seq<char>) -> bool {
    exists|j: int| 0 <= j < ms.len() && emits(#[trigger] ms[j], al, il) && ms[j].sku == k
}

/// The row of an Amazon ASIN that no mapping entry shows.
pub open spec fn amazon_row(al: Seq<LineView>, k: Seq<char>) -> CombinedRowView {
    CombinedRowView {
        id: k,
        title: first_title(al, k),
        amz_qty: Some(qty_of(al, k)),
        amz_cost: Some(total_of(al, k)),
        iherb_cases: None,
        iherb_cost: None,
        total_cases: Some(qty_of(al, k)),
        total_cost: total_of(al, k),
        is_pack: false,
    }
}

/// The row of an iHerb SKU that no mapping entry shows.
pub open spec fn iherb_row(il: Seq<LineView>, k: Seq<char>) -> CombinedRowView {
    CombinedRowView {
        id: k,
        title: first_title(il, k),
        amz_qty: None,
        amz_cost: None,
        iherb_cases: Some(cases_of(il, k)),
        iherb_cost: Some(total_of(il, k)),
        total_cases: Some(cases_of(il, k)),
        total_cost: total_of(il, k),
        is_pack: false,
    }
}

/// Rows of the ASINs of `ks` that no mapping entry shows, in the order of `ks`.
pub open spec fn amazon_only_rows(
    ks: Seq<Seq<char>>,
    ms: Seq<MappingView>,
    al: Seq<LineView>,
    il: Seq<LineView>,
) -> Seq<CombinedRowView>
    decreases ks.len(),
{
    if ks.len() == 0 {
        Seq::empty()
    } else {
        let p = amazon_only_rows(ks.drop_last(), ms, al, il);
        if asin_used(ms, al, il, ks.last()) {
            p
        } else {
            p.push(amazon_row(al, ks.last()))
        }
    }
}

/// Rows of the SKUs of `ks` that no mapping entry shows (and that are not `nan`).
pub open spec fn iherb_only_rows(
    ks: Seq<Seq<char>>,
    ms: Seq<MappingView>,
    al: Seq<LineView>,
    il: Seq<LineView>,
) -> Seq<CombinedRowView>
    decreases ks.len(),
{
    if ks.len() == 0 {
        Seq::empty()
    } else {
        let p = iherb_only_rows(ks.drop_last(), ms, al, il);
        if sku_used(ms, al, il, ks.last()) || ks.last() == "nan"@ {
            p
        } else {
            p.push(iherb_row(il, ks.last()))
        }
    }
}

/// The rows of the combined summary before ordering: mapped products, then
/// Amazon-only ASINs, then iHerb-only SKUs.
pub open spec fn combined_rows(ms: Seq<MappingView>, al: Seq<LineView>, il: Seq<LineView>) -> Seq<
    CombinedRowView,
> {
    mapped_rows(ms, al, il) + amazon_only_rows(distinct_keys(line_keys(al)), ms, al, il)
        + iherb_only_rows(distinct_keys(line_keys(il)), ms, al, il)
}

/// `gs` and `idx` are the groups of `ls` and the index of their keys.
pub open spec fn indexed(gs: Seq<Group>, idx: IndexMap<String, ()>, ls: Seq<LineView>) -> bool {
    &&& groups_of(gs, ls)
    &&& index_keys(idx) == distinct_keys(line_keys(ls))
    &&& forall|g: int|
        0 <= g < gs.len() ==> within(#[trigger] gs[g].qty as int, mass(ls)) && within(
            gs[g].cases as int,
            mass(ls),
        ) && within(gs[g].total as int, mass(ls))
    &&& lines_in_range(ls)
    &&& ls.len() <= usize::MAX
}

/// The position of the group of `key`, if some line has that key.
pub(crate) fn find_group(
    idx: &IndexMap<String, ()>,
    gs: &Vec<Group>,
    key: &String,
    Ghost(ls): Ghost<Seq<LineView>>,
) -> (r: Option<usize>)
    requires
        indexed(gs@, *idx, ls),
    ensures
        match r {
            Some(g) => g < gs@.len() && distinct_keys(line_keys(ls))[g as int] == key@ && has_key(
                ls,
                key@,
            ),
            None => !has_key(ls, key@),
        },
{
    proof {
        lemma_distinct_keys(line_keys(ls));
    }
    let r = key_index_find(idx, key);
    match r {
        Some(g) => {
            assert(distinct_keys(line_keys(ls)).contains(key@));
        },
        None => {},
    }
    r
}

proof fn lemma_used_step(ms: Seq<MappingView>, al: Seq<LineView>, il: Seq<LineView>, j: int)
    requires
        0 <= j < ms.len(),
    ensures
        forall|k: Seq<char>|
            asin_used(ms.take(j + 1), al, il, k) == (asin_used(ms.take(j), al, il, k) || (emits(
                ms[j],
                al,
                il,
            ) && ms[j].asin.len() > 0 && ms[j].asin == k)),
        forall|k: Seq<char>|
            sku_used(ms.take(j + 1), al, il, k) == (sku_used(ms.take(j), al, il, k) || (emits(
                ms[j],
                al,
                il,
            ) && ms[j].sku == k)),
{
    let p = ms.take(j);
    let q = ms.take(j + 1);
    assert forall|k: Seq<char>|
        asin_used(q, al, il, k) == (asin_used(p, al, il, k) || (emits(ms[j], al, il)
            && ms[j].asin.len() > 0 && ms[j].asin == k)) by {
        if asin_used(q, al, il, k) {
            let x = choose|x: int|
                0 <= x < q.len() && emits(#[trigger] q[x], al, il) && q[x].asin.len() > 0
                    && q[x].asin == k;
            if x < j {
                assert(p[x] == q[x]);
            }
        }
        if asin_used(p, al, il, k) {
            let x = choose|x: int|
                0 <= x < p.len() && emits(#[trigger] p[x], al, il) && p[x].asin.len() > 0
                    && p[x].asin == k;
            assert(q[x] == p[x]);
        }
        if emits(ms[j], al, il) && ms[j].asin.len() > 0 && ms[j].asin == k {
            assert(q[j] == ms[j]);
        }
    }
    assert forall|k: Seq<char>|
        sku_used(q, al, il, k) == (sku_used(p, al, il, k) || (emits(ms[j], al, il) && ms[j].sku
            == k)) by {
        if sku_used(q, al, il, k) {
            let x = choose|x: int| 0 <= x < q.len() && emits(#[trigger] q[x], al, il) && q[x].sku == k;
            if x < j {
                assert(p[x] == q[x]);
            }
        }
        if sku_used(p, al, il, k) {
            let x = choose|x: int| 0 <= x < p.len() && emits(#[trigger] p[x], al, il) && p[x].sku == k;
            assert(q[x] == p[x]);
        }
        if emits(ms[j], al, il) && ms[j].sku == k {
            assert(q[j] == ms[j]);
        }
    }
}

/// The row of one mapping entry, given the positions of its Amazon and iHerb groups.
fn mapped_row_of(
    m: &Mapping,
    ga: Option<usize>,
    ag: &Vec<Group>,
    gi: Option<usize>,
    ig: &Vec<Group>,
    Ghost(al): Ghost<Seq<LineView>>,
    Ghost(il): Ghost<Seq<LineView>>,
) -> (r: CombinedRow)
    requires
        groups_of(ag@, al),
        groups_of(ig@, il),
        forall|g: int| 0 <= g < ag@.len() ==> within(#[trigger] ag@[g].qty as int, mass(al))
            && within(ag@[g].total as int, mass(al)),
        forall|g: int| 0 <= g < ig@.len() ==> within(#[trigger] ig@[g].cases as int, mass(il))
            && within(ig@[g].total as int, mass(il)),
        al.len() <= usize::MAX,
        il.len() <= usize::MAX,
        lines_in_range(al),
        lines_in_range(il),
        match ga {
            Some(g) => g < ag@.len() && distinct_keys(line_keys(al))[g as int] == m.asin@
                && amz_present(m@, al),
            None => !amz_present(m@, al),
        },
        match gi {
            Some(g) => g < ig@.len() && distinct_keys(line_keys(il))[g as int] == m.sku@
                && ih_present(m@, il),
            None => !ih_present(m@, il),
        },
    ensures
        r@ == mapped_row(m@, al, il),
{
    let (amz_qty, amz_cost, aq, at) = match ga {
        Some(g) => (Some(ag[g].qty), Some(ag[g].total), ag[g].qty, ag[g].total),
        None => (None, None, 0, 0),
    };
    let (iherb_cases, iherb_cost, ic, it) = match gi {
        Some(g) => (Some(ig[g].cases), Some(ig[g].total), ig[g].cases, ig[g].total),
        None => (None, None, 0, 0),
    };
    let id = if m.asin.unicode_len() > 0 {
        m.asin.clone()
    } else {
        m.sku.clone()
    };
    CombinedRow {
        id,
        title: m.name.clone(),
        amz_qty,
        amz_cost,
        iherb_cases,
        iherb_cost,
        total_cases: if m.is_pack {
            None
        } else {
            Some(aq + ic)
        },
        total_cost: at + it,
        is_pack: m.is_pack,
    }
}

/// `n` flags, all down.
pub(crate) fn false_flags(n: usize) -> (v: Vec<bool>)
    ensures
        v@.len() == n,
        forall|i: int| 0 <= i < n ==> !#[trigger] v@[i],
{
    let mut v: Vec<bool> = Vec::new();
    let mut i: usize = 0;
    while i < n
        invariant
            i <= n,
            v@.len() == i,
            forall|k: int| 0 <= k < i ==> !#[trigger] v@[k],
        decreases n - i,
    {
        v.push(false);
        i = i + 1;
    }
    v
}

/// The rows of the mapping entries, and which Amazon and iHerb groups they show.
fn mapped_part(
    ms: &Vec<Mapping>,
    ag: &Vec<Group>,
    aidx: &IndexMap<String, ()>,
    ig: &Vec<Group>,
    iidx: &IndexMap<String, ()>,
    Ghost(al): Ghost<Seq<LineView>>,
    Ghost(il): Ghost<Seq<LineView>>,
) -> (res: (Vec<CombinedRow>, Vec<bool>, Vec<bool>))
    requires
        indexed(ag@, *aidx, al),
        indexed(ig@, *iidx, il),
    ensures
        row_views(res.0@) == mapped_rows(mapping_views(ms@), al, il),
        res.1@.len() == ag@.len(),
        res.2@.len() == ig@.len(),
        forall|g: int|
            0 <= g < ag@.len() ==> #[trigger] res.1@[g] == asin_used(
                mapping_views(ms@),
                al,
                il,
                distinct_keys(line_keys(al))[g],
            ),
        forall|g: int|
            0 <= g < ig@.len() ==> #[trigger] res.2@[g] == sku_used(
                mapping_views(ms@),
                al,
                il,
                distinct_keys(line_keys(il))[g],
            ),
{
    let ghost msv = mapping_views(ms@);
    let ghost adk = distinct_keys(line_keys(al));
    let ghost idk = distinct_keys(line_keys(il));
    proof {
        lemma_distinct_keys(line_keys(al));
        lemma_distinct_keys(line_keys(il));
    }
    let mut rows: Vec<CombinedRow> = Vec::new();
    let mut used_a = false_flags(ag.len());
    let mut used_i = false_flags(ig.len());
    let mut j: usize = 0;
    assert(msv.take(0) =~= Seq::<MappingView>::empty());
    assert(row_views(rows@) =~= Seq::<CombinedRowView>::empty());
    while j < ms.len()
        invariant
            indexed(ag@, *aidx, al),
            indexed(ig@, *iidx, il),
            msv == mapping_views(ms@),
            adk == distinct_keys(line_keys(al)),
            idk == distinct_keys(line_keys(il)),
            adk.no_duplicates(),
            idk.no_duplicates(),
            j <= ms@.len(),
            row_views(rows@) == mapped_rows(msv.take(j as int), al, il),
            used_a@.len() == ag@.len(),
            used_i@.len() == ig@.len(),
            forall|g: int|
                0 <= g < ag@.len() ==> #[trigger] used_a@[g] == asin_used(
                    msv.take(j as int),
                    al,
                    il,
                    adk[g],
                ),
            forall|g: int|
                0 <= g < ig@.len() ==> #[trigger] used_i@[g] == sku_used(
                    msv.take(j as int),
                    al,
                    il,
                    idk[g],
                ),
        decreases ms@.len() - j,
    {
        let m = &ms[j];
        proof {
            lemma_used_step(msv, al, il, j as int);
            assert(msv.take(j + 1).drop_last() =~= msv.take(j as int));
            assert(msv[j as int] == m@);
        }
        let ga = if m.asin.unicode_len() > 0 {
            find_group(aidx, ag, &m.asin, Ghost(al))
        } else {
            None
        };
        let gi = find_group(iidx, ig, &m.sku, Ghost(il));
        if ga.is_some() || gi.is_some() {
            let row = mapped_row_of(m, ga, ag, gi, ig, Ghost(al), Ghost(il));
            let ghost before = rows@;
            rows.push(row);
            assert(row_views(rows@) =~= row_views(before).push(mapped_row(m@, al, il)));
            match ga {
                Some(g) => {
                    used_a[g] = true;
                },
                None => {},
            }
            match gi {
                Some(g) => {
                    used_i[g] = true;
                },
                None => {},
            }
        }
        assert forall|g: int| 0 <= g < ag@.len() implies #[trigger] used_a@[g] == asin_used(
            msv.take(j + 1),
            al,
            il,
            adk[g],
        ) by {
            match ga {
                Some(x) => {
                    if adk[g] == m.asin@ {
                        assert(adk[x as int] == adk[g]);
                    }
                },
                None => {},
            }
            if emits(m@, al, il) && m.asin@.len() > 0 && m.asin@ == adk[g] {
                assert(has_key(al, m.asin@)) by {
                    lemma_distinct_keys(line_keys(al));
                    assert(adk.contains(adk[g]));
                }
            }
        }
        assert forall|g: int| 0 <= g < ig@.len() implies #[trigger] used_i@[g] == sku_used(
            msv.take(j + 1),
            al,
            il,
            idk[g],
        ) by {
            match gi {
                Some(x) => {
                    if idk[g] == m.sku@ {
                        assert(idk[x as int] == idk[g]);
                    }
                },
                None => {},
            }
            if emits(m@, al, il) && m.sku@ == idk[g] {
                assert(has_key(il, m.sku@)) by {
                    lemma_distinct_keys(line_keys(il));
                    assert(idk.contains(idk[g]));
                }
            }
        }
        j = j + 1;
    }
    assert(msv.take(ms@.len() as int) =~= msv);
    (rows, used_a, used_i)
}

/// The rows of the Amazon groups that no mapping entry shows.
fn amazon_only_part(
    ag: &Vec<Group>,
    used: &Vec<bool>,
    Ghost(ms): Ghost<Seq<MappingView>>,
    Ghost(al): Ghost<Seq<LineView>>,
    Ghost(il): Ghost<Seq<LineView>>,
) -> (rows: Vec<CombinedRow>)
    requires
        groups_of(ag@, al),
        used@.len() == ag@.len(),
        forall|g: int|
            0 <= g < ag@.len() ==> #[trigger] used@[g] == asin_used(
                ms,
                al,
                il,
                distinct_keys(line_keys(al))[g],
            ),
    ensures
        row_views(rows@) == amazon_only_rows(distinct_keys(line_keys(al)), ms, al, il),
{
    let ghost adk = distinct_keys(line_keys(al));
    let mut rows: Vec<CombinedRow> = Vec::new();
    let mut g: usize = 0;
    assert(adk.take(0) =~= Seq::<Seq<char>>::empty());
    assert(row_views(rows@) =~= Seq::<CombinedRowView>::empty());
    while g < ag.len()
        invariant
            groups_of(ag@, al),
            adk == distinct_keys(line_keys(al)),
            used@.len() == ag@.len(),
            forall|h: int|
                0 <= h < ag@.len() ==> #[trigger] used@[h] == asin_used(ms, al, il, adk[h]),
            g <= ag@.len(),
            row_views(rows@) == amazon_only_rows(adk.take(g as int), ms, al, il),
        decreases ag@.len() - g,
    {
        assert(adk.take(g + 1).drop_last() =~= adk.take(g as int));
        assert(adk.take(g + 1).last() == adk[g as int]);
        if !used[g] {
            let grp = &ag[g];
            let ghost before = rows@;
            rows.push(
                CombinedRow {
                    id: grp.key.clone(),
                    title: grp.title.clone(),
                    amz_qty: Some(grp.qty),
                    amz_cost: Some(grp.total),
                    iherb_cases: None,
                    iherb_cost: None,
                    total_cases: Some(grp.qty),
                    total_cost: grp.total,
                    is_pack: false,
                },
            );
            assert(row_views(rows@) =~= row_views(before).push(amazon_row(al, adk[g as int])));
        }
        g = g + 1;
    }
    assert(adk.take(ag@.len() as int) =~= adk);
    rows
}

/// The rows of the iHerb groups that no mapping entry shows (and that are not `nan`).
fn iherb_only_part(
    ig: &Vec<Group>,
    used: &Vec<bool>,
    Ghost(ms): Ghost<Seq<MappingView>>,
    Ghost(al): Ghost<Seq<LineView>>,
    Ghost(il): Ghost<Seq<LineView>>,
) -> (rows: Vec<CombinedRow>)
    requires
        groups_of(ig@, il),
        used@.len() == ig@.len(),
        forall|g: int|
            0 <= g < ig@.len() ==> #[trigger] used@[g] == sku_used(
                ms,
                al,
                il,
                distinct_keys(line_keys(il))[g],
            ),
    ensures
        row_views(rows@) == iherb_only_rows(distinct_keys(line_keys(il)), ms, al, il),
{
    let ghost idk = distinct_keys(line_keys(il));
    let mut rows: Vec<CombinedRow> = Vec::new();
    let mut g: usize = 0;
    assert(idk.take(0) =~= Seq::<Seq<char>>::empty());
    assert(row_views(rows@) =~= Seq::<CombinedRowView>::empty());
    while g < ig.len()
        invariant
            groups_of(ig@, il),
            idk == distinct_keys(line_keys(il)),
            used@.len() == ig@.len(),
            forall|h: int|
                0 <= h < ig@.len() ==> #[trigger] used@[h] == sku_used(ms, al, il, idk[h]),
            g <= ig@.len(),
            row_views(rows@) == iherb_only_rows(idk.take(g as int), ms, al, il),
        decreases ig@.len() - g,
    {
        assert(idk.take(g + 1).drop_last() =~= idk.take(g as int));
        assert(idk.take(g + 1).last() == idk[g as int]);
        let grp = &ig[g];
        if !used[g] && !str_eq(grp.key.as_str(), "nan") {
            let ghost before = rows@;
            rows.push(
                CombinedRow {
                    id: grp.key.clone(),
                    title: grp.title.clone(),
                    amz_qty: None,
                    amz_cost: None,
                    iherb_cases: Some(grp.cases),
                    iherb_cost: Some(grp.total),
                    total_cases: Some(grp.cases),
                    total_cost: grp.total,
                    is_pack: false,
                },
            );
            assert(row_views(rows@) =~= row_views(before).push(iherb_row(il, idk[g as int])));
        }
        g = g + 1;
    }
    assert(idk.take(ig@.len() as int) =~= idk);
    rows
}

pub open spec fn row_totals(rs: Seq<CombinedRowView>) -> Seq<int> {
    rs.map_values(|r: CombinedRowView| r.total_cost)
}

/// Sum of a sequence of numbers.
pub open spec fn seq_sum(v: Seq<int>) -> int
    decreases v.len(),
{
    if v.len() == 0 {
        0
    } else {
        seq_sum(v.drop_last()) + v.last()
    }
}

/// Every running sum of `v`, taken in order, fits in 128 bits.
pub open spec fn sums_fit(v: Seq<int>) -> bool {
    forall|k: int| 0 <= k <= v.len() ==> i128::MIN <= #[trigger] seq_sum(v.take(k)) <= i128::MAX
}

/// The elements of `rs` in the order `order` gives.
pub open spec fn arranged<T>(rs: Seq<T>, order: Seq<usize>) -> Seq<T> {
    Seq::new(order.len(), |a: int| rs[order[a] as int])
}

/// `r` reports the rows `u` ordered by decreasing total cost (ties in the
/// order of `u`) with the sum of their totals, or, when a running sum of
/// those totals leaves 128 bits, `TotalTooLarge`.
#[verifier::opaque]
pub open spec fn is_combined_report(r: Result<CombinedResult, PoError>, u: Seq<CombinedRowView>) -> bool {
    exists|order: Seq<usize>|
        #![trigger is_desc_order(row_totals(u), order)]
        is_desc_order(row_totals(u), order) && match r {
            Ok(res) => row_views(res.rows@) == arranged(u, order) && sums_fit(
                row_totals(arranged(u, order)),
            ) && res.grand_total == seq_sum(row_totals(arranged(u, order))),
            Err(e) => e == PoError::TotalTooLarge && !sums_fit(row_totals(arranged(u, order))),
        }
}

/// Orders the rows by decreasing total cost and totals them.
fn finish_combined(rows: Vec<CombinedRow>) -> (r: Result<CombinedResult, PoError>)
    ensures
        is_combined_report(r, row_views(rows@)),
{
    reveal(is_combined_report);
    let ghost u = row_views(rows@);
    let mut keys: Vec<i128> = Vec::new();
    let mut i: usize = 0;
    while i < rows.len()
        invariant
            i <= rows@.len(),
            keys@.len() == i,
            forall|h: int| 0 <= h < i ==> #[trigger] keys@[h] == rows@[h].total_cost,
        decreases rows@.len() - i,
    {
        keys.push(rows[i].total_cost);
        i = i + 1;
    }
    assert(ints(keys@) =~= row_totals(u));
    let order = order_desc(&keys);
    let ghost sorted = arranged(u, order@);
    let mut out: Vec<CombinedRow> = Vec::new();
    let mut total: i128 = 0;
    let mut a: usize = 0;
    assert(row_totals(sorted).take(0) =~= Seq::<int>::empty());
    while a < order.len()
        invariant
            u == row_views(rows@),
            is_desc_order(row_totals(u), order@),
            sorted == arranged(u, order@),
            a <= order@.len(),
            out@.len() == a,
            forall|b: int| 0 <= b < a ==> (#[trigger] out@[b])@ == sorted[b],
            total == seq_sum(row_totals(sorted).take(a as int)),
            forall|k: int|
                0 <= k <= a ==> i128::MIN <= #[trigger] seq_sum(row_totals(sorted).take(k))
                    <= i128::MAX,
        decreases order@.len() - a,
    {
        let row = rows[order[a]].copy();
        assert(row_totals(sorted).take(a + 1).drop_last() =~= row_totals(sorted).take(a as int));
        match total.checked_add(row.total_cost) {
            Some(t) => {
                total = t;
            },
            None => {
                assert(!sums_fit(row_totals(sorted))) by {
                    assert(!(i128::MIN <= seq_sum(row_totals(sorted).take(a + 1)) <= i128::MAX));
                }
                assert(is_desc_order(row_totals(u), order@));
                let r: Result<CombinedResult, PoError> = Err(PoError::TotalTooLarge);
                assert(is_combined_report(r, u)) by {
                    reveal(is_combined_report);
                }
                return r;
            },
        }
        out.push(row);
        a = a + 1;
    }
    assert(row_views(out@) =~= sorted);
    assert(row_totals(sorted).take(order@.len() as int) =~= row_totals(sorted));
    Ok(CombinedResult { rows: out, grand_total: total })
}

/// What the combined summary of `amz` and `ih` POs through `mapping` is: the
/// first failure among the mapping file, the Amazon files and the iHerb files,
/// else the report of `combined_rows`.
pub open spec fn combined_spec(
    amz: Seq<Result<Table, PoError>>,
    ih: Seq<Result<Table, PoError>>,
    mapping: Result<Table, PoError>,
    r: Result<CombinedResult, PoError>,
) -> bool {
    match mapping {
        Err(e) => r == Err::<CombinedResult, PoError>(e),
        Ok(mt) => match mapping_columns(mt.headers@) {
            Err(m) => r == Err::<CombinedResult, PoError>(PoError::MissingColumn(m)),
            Ok((s, a, n)) => {
                let ms = mapping_entries(mt.rows@, s, a, n, column_of(mt.headers@, "Pack?"@));
                match amazon_files_lines(amz) {
                    Err(e) => r == Err::<CombinedResult, PoError>(e),
                    Ok(al) => match iherb_files_lines(ih) {
                        Err(e) => r == Err::<CombinedResult, PoError>(e),
                        Ok(il) => if lines_in_range(al) && lines_in_range(il) {
                            is_combined_report(r, combined_rows(ms, al, il))
                        } else {
                            r == Err::<CombinedResult, PoError>(PoError::TotalTooLarge)
                        },
                    },
                }
            },
        },
    }
}

/// The combined summary of mapping entries and order lines.
fn combine_lines(ms: &Vec<Mapping>, al: &Vec<Line>, il: &Vec<Line>) -> (r: Result<
    CombinedResult,
    PoError,
>)
    requires
        lines_in_range(line_views(al@)),
        lines_in_range(line_views(il@)),
    ensures
        is_combined_report(r, combined_rows(mapping_views(ms@), line_views(al@), line_views(il@))),
{
    let ghost alv = line_views(al@);
    let ghost ilv = line_views(il@);
    let (ag, aidx) = group_lines_indexed(al);
    let (ig, iidx) = group_lines_indexed(il);
    assert(alv.len() == al.len() && ilv.len() == il.len());
    assert(indexed(ag@, aidx, alv));
    assert(indexed(ig@, iidx, ilv));
    let (mut rows, used_a, used_i) = mapped_part(ms, &ag, &aidx, &ig, &iidx, Ghost(alv), Ghost(ilv));
    let ghost msv = mapping_views(ms@);
    let mut more_a = amazon_only_part(&ag, &used_a, Ghost(msv), Ghost(alv), Ghost(ilv));
    let mut more_i = iherb_only_part(&ig, &used_i, Ghost(msv), Ghost(alv), Ghost(ilv));
    let ghost r1 = row_views(rows@);
    let ghost r2 = row_views(more_a@);
    let ghost r3 = row_views(more_i@);
    rows.append(&mut more_a);
    rows.append(&mut more_i);
    assert(row_views(rows@) =~= r1 + r2 + r3);
    finish_combined(rows)
}

/// Builds the combined summary: one row per mapping entry with orders on either
/// platform, then a row per Amazon ASIN and per iHerb SKU that no such entry
/// shows, ordered by decreasing total cost, with their grand total.
pub fn build_combined(
    amz: &Vec<Result<Table, PoError>>,
    ih: &Vec<Result<Table, PoError>>,
    mapping: &Result<Table, PoError>,
) -> (r: Result<CombinedResult, PoError>)
    ensures
        combined_spec(amz@, ih@, *mapping, r),
{
    let mt = match mapping {
        Ok(t) => t,
        Err(e) => {
            return Err(e.duplicate());
        },
    };
    let ms = load_mapping(mt)?;
    let al = amazon_file_lines(amz)?;
    let il = iherb_file_lines(ih)?;
    match (al, il) {
        (Some(al), Some(il)) => combine_lines(&ms, &al, &il),
        _ => Err(PoError::TotalTooLarge),
    }
}

} // verus!
