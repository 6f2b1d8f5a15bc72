//! Grouping of order lines by key, in the order in which keys first occur.
use crate::keys::{index_keys, key_index_find, key_index_insert, key_index_new};
use crate::number::NUMBER_BOUND;
use indexmap::IndexMap;
use vstd::prelude::*;

verus! {

/// One order line reduced to what aggregation reads: its key (ASIN or SKU),
/// its title, and its quantity, cases and total cost in the library's scales.
pub struct Line {
    pub key: String,
    pub title: String,
    pub qty: i128,
    pub cases: i128,
    pub total: i128,
}

/// The mathematical content of a line.
pub struct LineView {
    pub key: Seq<char>,
    pub title: Seq<char>,
    pub qty: int,
    pub cases: int,
    pub total: int,
}

impl View for Line {
    type V = LineView;

    open spec fn view(&self) -> LineView {
        LineView {
            key: self.key@,
            title: self.title@,
            qty: self.qty as int,
            cases: self.cases as int,
            total: self.total as int,
        }
    }
}

pub open spec fn line_views(lines: Seq<Line>) -> Seq<LineView> {
    lines.map_values(|l: Line| l@)
}

/// Lines sharing one key, summed.
pub struct Group {
    pub key: String,
    pub title: String,
    pub qty: i128,
    pub cases: i128,
    pub total: i128,
}

pub open spec fn line_keys(ls: Seq<LineView>) -> Seq<Seq<char>> {
    ls.map_values(|l: LineView| l.key)
}

/// The keys of `ks` without repeats, in the order of their first occurrence.
pub open spec fn distinct_keys(ks: Seq<Seq<char>>) -> Seq<Seq<char>>
    decreases ks.len(),
{
    if ks.len() == 0 {
        Seq::empty()
    } else {
        let d = distinct_keys(ks.drop_last());
        if d.contains(ks.last()) {
            d
        } else {
            d.push(ks.last())
        }
    }
}

pub open spec fn has_key(ls: Seq<LineView>, k: Seq<char>) -> bool {
    line_keys(ls).contains(k)
}

/// Sum of the quantities of the lines with key `k`.
pub open spec fn qty_of(ls: Seq<LineView>, k: Seq<char>) -> int
    decreases ls.len(),
{
    if ls.len() == 0 {
        0
    } else {
        qty_of(ls.drop_last(), k) + if ls.last().key == k {
            ls.last().qty
        } else {
            0
        }
    }
}

/// Sum of the cases of the lines with key `k`.
pub open spec fn cases_of(ls: Seq<LineView>, k: Seq<char>) -> int
    decreases ls.len(),
{
    if ls.len() == 0 {
        0
    } else {
        cases_of(ls.drop_last(), k) + if ls.last().key == k {
            ls.last().cases
        } else {
            0
        }
    }
}

/// Sum of the totals of the lines with key `k`.
pub open spec fn total_of(ls: Seq<LineView>, k: Seq<char>) -> int
    decreases ls.len(),
{
    if ls.len() == 0 {
        0
    } else {
        total_of(ls.drop_last(), k) + if ls.last().key == k {
            ls.last().total
        } else {
            0
        }
    }
}

/// Title of the first line with key `k`.
pub open spec fn first_title(ls: Seq<LineView>, k: Seq<char>) -> Seq<char>
    decreases ls.len(),
{
    if ls.len() == 0 {
        Seq::empty()
    } else if has_key(ls.drop_last(), k) {
        first_title(ls.drop_last(), k)
    } else {
        ls.last().title
    }
}

/// `g` is the group of the lines of `ls` with key `k`.
pub open spec fn is_group_of(g: Group, ls: Seq<LineView>, k: Seq<char>) -> bool {
    &&& g.key@ == k
    &&& g.title@ == first_title(ls, k)
    &&& g.qty == qty_of(ls, k)
    &&& g.cases == cases_of(ls, k)
    &&& g.total == total_of(ls, k)
}

/// `gs` holds one group per distinct key of `ls`, in first-occurrence order.
pub open spec fn groups_of(gs: Seq<Group>, ls: Seq<LineView>) -> bool {
    &&& gs.len() == distinct_keys(line_keys(ls)).len()
    &&& forall|g: int|
        0 <= g < gs.len() ==> is_group_of(#[trigger] gs[g], ls, distinct_keys(line_keys(ls))[g])
}

pub proof fn lemma_distinct_keys(ks: Seq<Seq<char>>)
    ensures
        distinct_keys(ks).no_duplicates(),
        forall|k: Seq<char>| distinct_keys(ks).contains(k) <==> ks.contains(k),
        distinct_keys(ks).len() <= ks.len(),
    decreases ks.len(),
{
    if ks.len() > 0 {
        let p = ks.drop_last();
        lemma_distinct_keys(p);
        let d = distinct_keys(p);
        let last = ks.last();
        assert forall|k: Seq<char>| distinct_keys(ks).contains(k) <==> ks.contains(k) by {
            if ks.contains(k) {
                let i = choose|i: int| 0 <= i < ks.len() && ks[i] == k;
                if i < ks.len() - 1 {
                    assert(p[i] == k);
                    assert(p.contains(k));
                    assert(d.contains(k));
                    let j = choose|j: int| 0 <= j < d.len() && d[j] == k;
                    if !d.contains(last) {
                        assert(d.push(last)[j] == k);
                    }
                } else {
                    assert(k == last);
                    if !d.contains(last) {
                        assert(d.push(last)[d.len() as int] == k);
                    }
                }
            }
            if distinct_keys(ks).contains(k) {
                let j = choose|j: int|
                    0 <= j < distinct_keys(ks).len() && distinct_keys(ks)[j] == k;
                if j < d.len() {
                    assert(d[j] == k);
                    assert(d.contains(k));
                    assert(p.contains(k));
                    let i = choose|i: int| 0 <= i < p.len() && p[i] == k;
                    assert(ks[i] == k);
                } else {
                    assert(k == last);
                    assert(ks[ks.len() - 1] == k);
                }
            }
        }
    }
}

proof fn lemma_step(ls: Seq<LineView>, i: int)
    requires
        0 <= i < ls.len(),
    ensures
        ls.take(i + 1).drop_last() == ls.take(i),
        ls.take(i + 1).last() == ls[i],
        line_keys(ls.take(i + 1)).drop_last() == line_keys(ls.take(i)),
        line_keys(ls.take(i + 1)).last() == ls[i].key,
        line_keys(ls.take(i + 1)).len() == i + 1,
{
    assert(ls.take(i + 1).drop_last() =~= ls.take(i));
    assert(line_keys(ls.take(i + 1)).drop_last() =~= line_keys(ls.take(i)));
}

pub open spec fn abs(x: int) -> int {
    if x < 0 {
        -x
    } else {
        x
    }
}

/// The magnitudes of a line's quantity, cases and total, added up.
pub open spec fn line_mass(l: LineView) -> int {
    abs(l.qty) + abs(l.cases) + abs(l.total)
}

/// The magnitudes of all the lines' figures, added up: a bound on every sum of
/// them.
pub open spec fn mass(ls: Seq<LineView>) -> int
    decreases ls.len(),
{
    if ls.len() == 0 {
        0
    } else {
        mass(ls.drop_last()) + line_mass(ls.last())
    }
}

pub open spec fn within(v: int, m: int) -> bool {
    -m <= v <= m
}

/// A line's figures fit the bound that keeps every sum within 128 bits.
pub open spec fn line_in_range(l: LineView) -> bool {
    line_mass(l) <= NUMBER_BOUND
}

/// The lines' figures, all added up in magnitude, fit the bound that keeps every
/// sum within 128 bits.
pub open spec fn lines_in_range(ls: Seq<LineView>) -> bool {
    mass(ls) <= NUMBER_BOUND
}

/// The mass of a prefix: it grows line by line and never exceeds the whole.
pub proof fn lemma_mass_prefix(ls: Seq<LineView>, i: int)
    requires
        0 <= i <= ls.len(),
    ensures
        0 <= mass(ls.take(i)) <= mass(ls),
        i < ls.len() ==> mass(ls.take(i + 1)) == mass(ls.take(i)) + line_mass(ls[i]),
    decreases ls.len() - i,
{
    if i < ls.len() {
        assert(ls.take(i + 1).drop_last() =~= ls.take(i));
        assert(ls.take(i + 1).last() == ls[i]);
        lemma_mass_prefix(ls, i + 1);
        lemma_mass_nonneg(ls.take(i));
    } else {
        assert(ls.take(i) =~= ls);
        lemma_mass_nonneg(ls);
    }
}

pub proof fn lemma_mass_nonneg(ls: Seq<LineView>)
    ensures
        mass(ls) >= 0,
    decreases ls.len(),
{
    if ls.len() > 0 {
        lemma_mass_nonneg(ls.drop_last());
    }
}

/// The mass of two runs of lines is the sum of their masses.
pub proof fn lemma_mass_append(a: Seq<LineView>, b: Seq<LineView>)
    ensures
        mass(a + b) == mass(a) + mass(b),
    decreases b.len(),
{
    if b.len() == 0 {
        assert(a + b =~= a);
    } else {
        assert((a + b).drop_last() =~= a + b.drop_last());
        lemma_mass_append(a, b.drop_last());
    }
}

/// Groups `lines` by key: one group per distinct key, in the order in which
/// the keys first occur, with the title of the key's first line and the sums of
/// its lines' quantities, cases and totals.
pub fn group_lines(lines: &Vec<Line>) -> (gs: Vec<Group>)
    requires
        lines_in_range(line_views(lines@)),
    ensures
        groups_of(gs@, line_views(lines@)),
        forall|g: int|
            0 <= g < gs@.len() ==> within(#[trigger] gs@[g].qty as int, mass(line_views(lines@)))
                && within(gs@[g].cases as int, mass(line_views(lines@))) && within(
                gs@[g].total as int,
                mass(line_views(lines@)),
            ),
{
    let (gs, _index) = group_lines_indexed(lines);
    gs
}

/// `group_lines`, also giving the map from each key to its group's position.
pub(crate) fn group_lines_indexed(lines: &Vec<Line>) -> (res: (Vec<Group>, IndexMap<String, ()>))
    requires
        lines_in_range(line_views(lines@)),
    ensures
        groups_of(res.0@, line_views(lines@)),
        index_keys(res.1) == distinct_keys(line_keys(line_views(lines@))),
        forall|g: int|
            0 <= g < res.0@.len() ==> within(#[trigger] res.0@[g].qty as int, mass(line_views(lines@)))
                && within(res.0@[g].cases as int, mass(line_views(lines@))) && within(
                res.0@[g].total as int,
                mass(line_views(lines@)),
            ),
{
    let ghost lv = line_views(lines@);
    let mut index = key_index_new();
    let mut gs: Vec<Group> = Vec::new();
    let mut i: usize = 0;
    assert(lv.take(0) =~= Seq::<LineView>::empty());
    assert(line_keys(lv.take(0)) =~= Seq::<Seq<char>>::empty());
    while i < lines.len()
        invariant
            i <= lines@.len(),
            lv == line_views(lines@),
            lines_in_range(lv),
            groups_of(gs@, lv.take(i as int)),
            index_keys(index) == distinct_keys(line_keys(lv.take(i as int))),
            forall|g: int|
                0 <= g < gs@.len() ==> within(#[trigger] gs@[g].qty as int, mass(lv.take(i as int)))
                    && within(gs@[g].cases as int, mass(lv.take(i as int))) && within(
                    gs@[g].total as int,
                    mass(lv.take(i as int)),
                ),
        decreases lines@.len() - i,
    {
        let ghost prev = lv.take(i as int);
        let ghost cur = lv.take(i + 1);
        let ghost dk = distinct_keys(line_keys(prev));
        let l = &lines[i];
        proof {
            lemma_step(lv, i as int);
            lemma_mass_prefix(lv, i as int);
            lemma_mass_prefix(lv, i + 1);
            assert(lv[i as int] == lines@[i as int]@);
            lemma_distinct_keys(line_keys(prev));
            lemma_distinct_keys(line_keys(cur));
        }
        match key_index_find(&index, &l.key) {
            Some(g) => {
                assert(dk[g as int] == l.key@);
                assert(dk.contains(l.key@));
                assert(distinct_keys(line_keys(cur)) == dk);
                let q = gs[g].qty + l.qty;
                let c = gs[g].cases + l.cases;
                let t = gs[g].total + l.total;
                gs[g].qty = q;
                gs[g].cases = c;
                gs[g].total = t;
                assert forall|h: int| 0 <= h < gs@.len() implies is_group_of(
                    #[trigger] gs@[h],
                    cur,
                    dk[h],
                ) by {
                    assert(has_key(prev, dk[h]));
                    if h != g {
                        assert(dk[h] != dk[g as int]);
                    }
                }
            },
            None => {
                assert(!dk.contains(l.key@));
                assert(distinct_keys(line_keys(cur)) == dk.push(l.key@));
                let pos = key_index_insert(&mut index, l.key.clone());
                gs.push(
                    Group {
                        key: l.key.clone(),
                        title: l.title.clone(),
                        qty: l.qty,
                        cases: l.cases,
                        total: l.total,
                    },
                );
                assert forall|h: int| 0 <= h < gs@.len() implies is_group_of(
                    #[trigger] gs@[h],
                    cur,
                    distinct_keys(line_keys(cur))[h],
                ) by {
                    if h < dk.len() {
                        assert(has_key(prev, dk[h]));
                        assert(dk[h] != l.key@);
                    } else {
                        assert(!has_key(prev, l.key@));
                        assert(qty_of(prev, l.key@) == 0) by {
                            lemma_absent_sums(prev, l.key@);
                        }
                        assert(cases_of(prev, l.key@) == 0) by {
                            lemma_absent_sums(prev, l.key@);
                        }
                        assert(total_of(prev, l.key@) == 0) by {
                            lemma_absent_sums(prev, l.key@);
                        }
                    }
                }
            },
        }
        i = i + 1;
    }
    assert(lv.take(lines@.len() as int) =~= lv);
    (gs, index)
}

/// A key that no line carries sums to zero.
pub proof fn lemma_absent_sums(ls: Seq<LineView>, k: Seq<char>)
    requires
        !has_key(ls, k),
    ensures
        qty_of(ls, k) == 0,
        cases_of(ls, k) == 0,
        total_of(ls, k) == 0,
    decreases ls.len(),
{
    if ls.len() > 0 {
        let p = ls.drop_last();
        assert(line_keys(ls)[ls.len() - 1] == ls.last().key);
        assert forall|j: int| 0 <= j < p.len() implies line_keys(p)[j] != k by {
            assert(line_keys(ls)[j] == line_keys(p)[j]);
        }
        lemma_absent_sums(p, k);
    }
}

/// The quantity `mq q`, cases `mc q` and total `q p` of a line whose quantity
/// and price cells read `q` and `p`; `None` when their magnitudes add up to more
/// than `NUMBER_BOUND`. `qn` and `pn` are the readings of the two cells (`None`
/// for a number beyond `NUMBER_BOUND`).
pub(crate) fn line_figures(
    qn: Option<i128>,
    pn: Option<i128>,
    mq: i128,
    mc: i128,
    Ghost(q): Ghost<int>,
    Ghost(p): Ghost<int>,
) -> (r: Option<(i128, i128, i128)>)
    requires
        1 <= mq <= 12,
        1 <= mc <= 12,
        match qn {
            Some(v) => v == q && -NUMBER_BOUND <= v <= NUMBER_BOUND,
            None => !(-NUMBER_BOUND <= q <= NUMBER_BOUND),
        },
        match pn {
            Some(v) => v == p && -NUMBER_BOUND <= v <= NUMBER_BOUND,
            None => !(-NUMBER_BOUND <= p <= NUMBER_BOUND),
        },
    ensures
        match r {
            Some((a, b, c)) => a == mq * q && b == mc * q && c == q * p && abs(a as int) + abs(
                b as int,
            ) + abs(c as int) <= NUMBER_BOUND,
            None => abs(mq * q) + abs(mc * q) + abs(q * p) > NUMBER_BOUND,
        },
{
    assert(abs(mc * q) >= 0 && abs(q * p) >= 0 && abs(mq * q) >= 0);
    let v = match qn {
        None => {
            assert(abs(mq * q) > NUMBER_BOUND) by (nonlinear_arith)
                requires
                    !(-NUMBER_BOUND <= q <= NUMBER_BOUND),
                    1 <= mq,
            ;
            return None;
        },
        Some(v) => v,
    };
    let a = match v.checked_mul(mq) {
        None => {
            return None;
        },
        Some(a) => a,
    };
    if a < -NUMBER_BOUND || a > NUMBER_BOUND {
        return None;
    }
    let b = match v.checked_mul(mc) {
        None => {
            return None;
        },
        Some(b) => b,
    };
    if b < -NUMBER_BOUND || b > NUMBER_BOUND {
        return None;
    }
    if v == 0 {
        assert(q * p == 0) by (nonlinear_arith)
            requires
                q == 0,
        ;
        return finish_figures(a, b, 0);
    }
    let w = match pn {
        None => {
            assert(abs(q * p) > NUMBER_BOUND) by (nonlinear_arith)
                requires
                    q != 0,
                    !(-NUMBER_BOUND <= p <= NUMBER_BOUND),
            ;
            return None;
        },
        Some(w) => w,
    };
    let c = match v.checked_mul(w) {
        None => {
            return None;
        },
        Some(c) => c,
    };
    if c < -NUMBER_BOUND || c > NUMBER_BOUND {
        return None;
    }
    finish_figures(a, b, c)
}

/// The three figures when their magnitudes add up to at most `NUMBER_BOUND`.
fn finish_figures(a: i128, b: i128, c: i128) -> (r: Option<(i128, i128, i128)>)
    requires
        within(a as int, NUMBER_BOUND as int),
        within(b as int, NUMBER_BOUND as int),
        within(c as int, NUMBER_BOUND as int),
    ensures
        match r {
            Some(x) => x == (a, b, c) && abs(a as int) + abs(b as int) + abs(c as int) <= NUMBER_BOUND,
            None => abs(a as int) + abs(b as int) + abs(c as int) > NUMBER_BOUND,
        },
{
    let x = if a < 0 { -a } else { a };
    let y = if b < 0 { -b } else { b };
    let z = if c < 0 { -c } else { c };
    if x + y + z > NUMBER_BOUND {
        None
    } else {
        Some((a, b, c))
    }
}

/// Sums the magnitudes of the lines' figures; `true` when they fit `NUMBER_BOUND`.
pub fn lines_fit(lines: &Vec<Line>) -> (r: bool)
    requires
        forall|j: int| 0 <= j < lines@.len() ==> line_in_range(#[trigger] lines@[j]@),
    ensures
        r == lines_in_range(line_views(lines@)),
{
    let ghost lv = line_views(lines@);
    let mut m: i128 = 0;
    let mut i: usize = 0;
    while i < lines.len()
        invariant
            lv == line_views(lines@),
            forall|j: int| 0 <= j < lines@.len() ==> line_in_range(#[trigger] lines@[j]@),
            i <= lines@.len(),
            m == mass(lv.take(i as int)),
            m <= NUMBER_BOUND,
        decreases lines@.len() - i,
    {
        proof {
            lemma_mass_prefix(lv, i as int);
            lemma_mass_prefix(lv, i + 1);
        }
        let l = &lines[i];
        assert(lv[i as int] == l@);
        assert(line_in_range(l@));
        let x = if l.qty < 0 { -l.qty } else { l.qty };
        let y = if l.cases < 0 { -l.cases } else { l.cases };
        let z = if l.total < 0 { -l.total } else { l.total };
        let next = m + x + y + z;
        if next > NUMBER_BOUND {
            return false;
        }
        m = next;
        i = i + 1;
    }
    assert(lv.take(lines@.len() as int) =~= lv);
    true
}

} // verus!
