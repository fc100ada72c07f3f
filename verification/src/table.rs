//! A minimal hand-built columnar store: an ordered sequence of named columns,
//! each holding either time keys (the temporal axis, as integers such as day
//! numbers) or cell values, all of one shared row count. Rows are aligned by
//! position across columns.
//!
//! The one structural operation is the stable ascending sort of all rows by a
//! designated time column; ties between equal time keys keep their original
//! relative order, so which row counts as "previous" is pinned down even when
//! time keys collide.

use vstd::prelude::*;
use crate::rational::{Value, value_wf};

verus! {

/// The cells of one column: time keys or values.
#[derive(Clone, Debug)]
pub enum ColData {
    Times(Vec<i64>),
    Nums(Vec<Value>),
}

/// A named column.
#[derive(Clone, Debug)]
pub struct Column {
    pub name: String,
    pub data: ColData,
}

/// A wide table: columns of one shared row count.
#[derive(Clone, Debug)]
pub struct Table {
    pub cols: Vec<Column>,
}

/// Mathematical image of one column's cells.
#[verifier::ext_equal]
pub enum ColDataV {
    Times(Seq<i64>),
    Nums(Seq<Value>),
}

/// Mathematical image of a column.
#[verifier::ext_equal]
pub struct ColV {
    pub name: Seq<char>,
    pub data: ColDataV,
}

impl View for ColData {
    type V = ColDataV;

    open spec fn view(&self) -> ColDataV {
        match self {
            ColData::Times(v) => ColDataV::Times(v@),
            ColData::Nums(v) => ColDataV::Nums(v@),
        }
    }
}

impl View for Column {
    type V = ColV;

    open spec fn view(&self) -> ColV {
        ColV { name: self.name@, data: self.data@ }
    }
}

impl View for Table {
    type V = Seq<ColV>;

    open spec fn view(&self) -> Seq<ColV> {
        self.cols@.map_values(|c: Column| c@)
    }
}

pub open spec fn col_len(c: ColV) -> nat {
    match c.data {
        ColDataV::Times(v) => v.len(),
        ColDataV::Nums(v) => v.len(),
    }
}

pub open spec fn col_wf(c: ColV) -> bool {
    match c.data {
        ColDataV::Times(_) => true,
        ColDataV::Nums(v) => forall|i: int| 0 <= i < v.len() ==> value_wf(#[trigger] v[i]),
    }
}

/// The shared row count: that of the first column (0 for an empty table).
pub open spec fn nrows(t: Seq<ColV>) -> nat {
    if t.len() == 0 {
        0
    } else {
        col_len(t[0])
    }
}

/// Well-formed table: every column has the shared row count and well-formed
/// cells.
pub open spec fn table_wf(t: Seq<ColV>) -> bool {
    forall|j: int|
        0 <= j < t.len() ==> col_len(#[trigger] t[j]) == nrows(t) && col_wf(t[j])
}

/// The time keys of a time column.
pub open spec fn times_of(c: ColV) -> Seq<i64>
    recommends c.data is Times,
{
    match c.data {
        ColDataV::Times(v) => v,
        ColDataV::Nums(_) => arbitrary(),
    }
}

/// The cells of a value column.
pub open spec fn nums_of(c: ColV) -> Seq<Value>
    recommends c.data is Nums,
{
    match c.data {
        ColDataV::Nums(v) => v,
        ColDataV::Times(_) => arbitrary(),
    }
}

// ---------------------------------------------------------------------------
// Stable sort of row indices by time key.
//
// A row is represented by the pair (time key, original row index); the sort
// is the insertion sort over these pairs, placing equal keys after the ones
// already present, which keeps the original relative order.
// ---------------------------------------------------------------------------

/// The rows of a time column as (key, original index) pairs.
pub open spec fn key_pairs(times: Seq<i64>) -> Seq<(i64, usize)> {
    Seq::new(times.len(), |i: int| (times[i], i as usize))
}

/// Insert one pair into an already sorted run, after any equal keys.
pub open spec fn insert_pair(s: Seq<(i64, usize)>, x: (i64, usize)) -> Seq<(i64, usize)>
    decreases s.len(),
{
    if s.len() == 0 {
        seq![x]
    } else if s.last().0 <= x.0 {
        s.push(x)
    } else {
        insert_pair(s.drop_last(), x).push(s.last())
    }
}

/// Stable insertion sort of (key, index) pairs.
pub open spec fn sort_pairs(s: Seq<(i64, usize)>) -> Seq<(i64, usize)>
    decreases s.len(),
{
    if s.len() == 0 {
        Seq::empty()
    } else {
        insert_pair(sort_pairs(s.drop_last()), s.last())
    }
}

/// Ascending by key; on equal keys, ascending by original index.
pub open spec fn pair_le(a: (i64, usize), b: (i64, usize)) -> bool {
    a.0 < b.0 || (a.0 == b.0 && a.1 <= b.1)
}

/// Sorted ascending by key, with ties in original order: the meaning of a
/// stable time sort.
pub open spec fn sorted_stable(s: Seq<(i64, usize)>) -> bool {
    forall|i: int, j: int| 0 <= i < j < s.len() ==> pair_le(#[trigger] s[i], #[trigger] s[j])
}

/// Inserting after equal keys preserves sortedness and keeps every element
/// from the run or the inserted pair.
proof fn lemma_insert_pair_props(s: Seq<(i64, usize)>, x: (i64, usize))
    requires
        sorted_stable(s),
        forall|q: int| 0 <= q < s.len() ==> (#[trigger] s[q]).1 < x.1,
    ensures
        insert_pair(s, x).len() == s.len() + 1,
        sorted_stable(insert_pair(s, x)),
        forall|q: int|
            0 <= q < insert_pair(s, x).len()
                ==> s.contains(#[trigger] insert_pair(s, x)[q]) || insert_pair(s, x)[q] == x,
    decreases s.len(),
{
    if s.len() == 0 {
    } else if s.last().0 <= x.0 {
        let r = s.push(x);
        assert forall|i: int, j: int| 0 <= i < j < r.len() implies pair_le(r[i], r[j]) by {
            if j < s.len() {
            } else {
                assert(r[j] == x);
                if i < s.len() {
                    assert(pair_le(s[i], s.last()) || i == s.len() - 1);
                }
            }
        }
        assert forall|q: int| 0 <= q < r.len() implies s.contains(r[q]) || r[q] == x by {
            if q < s.len() {
                assert(s[q] == r[q]);
            }
        }
    } else {
        let d = s.drop_last();
        assert(forall|q: int| 0 <= q < d.len() ==> d[q] == s[q]);
        lemma_insert_pair_props(d, x);
        let ri = insert_pair(d, x);
        let r = ri.push(s.last());
        assert(insert_pair(s, x) == r);
        // every element of ri is below s.last() in the stable order
        assert forall|q: int| 0 <= q < ri.len() implies pair_le(ri[q], s.last()) by {
            if ri[q] == x {
                assert(x.0 < s.last().0);
            } else {
                assert(d.contains(ri[q]));
                let w = choose|w: int| 0 <= w < d.len() && d[w] == ri[q];
                assert(pair_le(s[w], s.last()));
            }
        }
        assert forall|i: int, j: int| 0 <= i < j < r.len() implies pair_le(r[i], r[j]) by {
            if j < ri.len() {
            } else {
                assert(r[j] == s.last());
            }
        }
        assert forall|q: int| 0 <= q < r.len() implies s.contains(r[q]) || r[q] == x by {
            if q < ri.len() {
                if ri[q] != x {
                    assert(d.contains(ri[q]));
                    let w = choose|w: int| 0 <= w < d.len() && d[w] == ri[q];
                    assert(s[w] == r[q]);
                }
            } else {
                assert(r[q] == s.last());
                assert(s[s.len() - 1] == s.last());
            }
        }
    }
}

/// The sort of a run of pairs with strictly increasing indices is sorted and
/// stable, has the same length, and keeps every element from the run.
pub proof fn lemma_sort_pairs_props(s: Seq<(i64, usize)>)
    requires
        forall|q1: int, q2: int| 0 <= q1 < q2 < s.len() ==> (#[trigger] s[q1]).1 < (#[trigger] s[q2]).1,
    ensures
        sort_pairs(s).len() == s.len(),
        sorted_stable(sort_pairs(s)),
        forall|q: int| 0 <= q < s.len() ==> s.contains(#[trigger] sort_pairs(s)[q]),
    decreases s.len(),
{
    if s.len() == 0 {
    } else {
        let d = s.drop_last();
        let x = s.last();
        assert(forall|q: int| 0 <= q < d.len() ==> d[q] == s[q]);
        lemma_sort_pairs_props(d);
        let sd = sort_pairs(d);
        assert forall|q: int| 0 <= q < sd.len() implies (#[trigger] sd[q]).1 < x.1 by {
            assert(d.contains(sd[q]));
            let w = choose|w: int| 0 <= w < d.len() && d[w] == sd[q];
            assert(s[w].1 < x.1);
        }
        lemma_insert_pair_props(sd, x);
        let r = insert_pair(sd, x);
        assert forall|q: int| 0 <= q < r.len() implies s.contains(r[q]) by {
            if r[q] == x {
                assert(s[s.len() - 1] == x);
            } else {
                assert(sd.contains(r[q]));
                let w = choose|w: int| 0 <= w < sd.len() && sd[w] == r[q];
                assert(d.contains(sd[w]));
                let w2 = choose|w2: int| 0 <= w2 < d.len() && d[w2] == sd[w];
                assert(s[w2] == r[q]);
            }
        }
    }
}

/// `insert_pair` is insertion at the position found by scanning from the
/// right past all strictly greater keys.
proof fn lemma_insert_pair_at(s: Seq<(i64, usize)>, x: (i64, usize), j: int)
    requires
        0 <= j <= s.len(),
        forall|q: int| j <= q < s.len() ==> (#[trigger] s[q]).0 > x.0,
        j > 0 ==> s[j - 1].0 <= x.0,
    ensures
        insert_pair(s, x) == s.insert(j, x),
    decreases s.len(),
{
    if s.len() == 0 {
        assert(insert_pair(s, x) =~= s.insert(0, x));
    } else if j == s.len() {
        assert(s.last().0 <= x.0);
        assert(insert_pair(s, x) == s.push(x));
        assert(s.push(x) =~= s.insert(j, x));
    } else {
        assert(s[s.len() - 1].0 > x.0);
        let d = s.drop_last();
        assert(forall|q: int| 0 <= q < d.len() ==> d[q] == s[q]);
        lemma_insert_pair_at(d, x, j);
        assert(insert_pair(s, x) == insert_pair(d, x).push(s.last()));
        assert(d.insert(j, x).push(s.last()) =~= s.insert(j, x));
    }
}

/// Stable sort of the rows of a time column, as the permutation it induces:
/// the sorted (key, original index) pairs.
pub fn sort_indices(times: &Vec<i64>) -> (perm: Vec<(i64, usize)>)
    ensures
        perm@ == sort_pairs(key_pairs(times@)),
{
    let n = times.len();
    let mut perm: Vec<(i64, usize)> = Vec::new();
    let mut i: usize = 0;
    while i < n
        invariant
            i <= n,
            n == times@.len(),
            perm@ == sort_pairs(key_pairs(times@).take(i as int)),
        decreases n - i,
    {
        let key = times[i];
        let mut j: usize = perm.len();
        while j > 0 && perm[j - 1].0 > key
            invariant
                0 <= j <= perm@.len(),
                forall|q: int| j <= q < perm@.len() ==> (#[trigger] perm@[q]).0 > key,
            decreases j,
        {
            j -= 1;
        }
        let ghost before = perm@;
        perm.insert(j, (key, i));
        proof {
            lemma_insert_pair_at(before, (key, i), j as int);
            let kp = key_pairs(times@);
            assert(kp.take(i as int + 1).drop_last() =~= kp.take(i as int));
            assert(kp.take(i as int + 1).last() == (times@[i as int], i as usize));
            assert(perm@ == insert_pair(sort_pairs(kp.take(i as int)), (key, i as usize)));
        }
        i += 1;
    }
    proof {
        assert(key_pairs(times@).take(n as int) =~= key_pairs(times@));
    }
    perm
}

/// The rows of `vals` rearranged by a permutation: row `i` of the result is
/// the row `perm[i].1` of the input.
pub open spec fn spec_permute<T>(vals: Seq<T>, perm: Seq<(i64, usize)>) -> Seq<T> {
    Seq::new(perm.len(), |i: int| vals[perm[i].1 as int])
}

/// Rearrange a column's cells by a row permutation.
pub fn permute_cells<T: Copy>(vals: &Vec<T>, perm: &Vec<(i64, usize)>) -> (out: Vec<T>)
    requires
        forall|q: int| 0 <= q < perm@.len() ==> (#[trigger] perm@[q]).1 < vals@.len(),
    ensures
        out@ == spec_permute(vals@, perm@),
{
    let mut out: Vec<T> = Vec::new();
    let mut i: usize = 0;
    while i < perm.len()
        invariant
            i <= perm@.len(),
            out@.len() == i,
            forall|q: int| 0 <= q < perm@.len() ==> (#[trigger] perm@[q]).1 < vals@.len(),
            forall|q: int| 0 <= q < i ==> out@[q] == vals@[(#[trigger] perm@[q]).1 as int],
        decreases perm@.len() - i,
    {
        let idx = perm[i].1;
        out.push(vals[idx]);
        i += 1;
    }
    proof {
        assert(out@ =~= spec_permute(vals@, perm@));
    }
    out
}

/// One column with its rows rearranged by `perm`; name and kind are kept.
pub open spec fn permute_col(c: ColV, perm: Seq<(i64, usize)>) -> ColV {
    ColV {
        name: c.name,
        data: match c.data {
            ColDataV::Times(v) => ColDataV::Times(spec_permute(v, perm)),
            ColDataV::Nums(v) => ColDataV::Nums(spec_permute(v, perm)),
        },
    }
}

/// The permutation that the stable time sort of table `t` by its time column
/// `ti` induces.
pub open spec fn sort_perm_of(t: Seq<ColV>, ti: int) -> Seq<(i64, usize)>
    recommends 0 <= ti < t.len(), t[ti].data is Times,
{
    sort_pairs(key_pairs(times_of(t[ti])))
}

/// The table with all rows sorted ascending by the time column `ti`, ties in
/// original order; columns keep their order, names and kinds.
pub open spec fn spec_sort_table(t: Seq<ColV>, ti: int) -> Seq<ColV>
    recommends 0 <= ti < t.len(), t[ti].data is Times,
{
    let perm = sort_perm_of(t, ti);
    t.map_values(|c: ColV| permute_col(c, perm))
}

/// The permutation of a well-formed table's time column: sorted, stable, of
/// the row count, and with every original row index in range.
pub proof fn lemma_sort_perm_props(t: Seq<ColV>, ti: int)
    requires
        table_wf(t),
        0 <= ti < t.len(),
        t[ti].data is Times,
        nrows(t) <= usize::MAX,
    ensures
        sort_perm_of(t, ti).len() == nrows(t),
        sorted_stable(sort_perm_of(t, ti)),
        forall|q: int|
            0 <= q < sort_perm_of(t, ti).len()
                ==> (#[trigger] sort_perm_of(t, ti)[q]).1 < nrows(t),
        forall|q: int|
            0 <= q < sort_perm_of(t, ti).len()
                ==> (#[trigger] sort_perm_of(t, ti)[q]).0
                    == times_of(t[ti])[sort_perm_of(t, ti)[q].1 as int],
{
    let times = times_of(t[ti]);
    let kp = key_pairs(times);
    assert forall|q1: int, q2: int| 0 <= q1 < q2 < kp.len()
        implies (#[trigger] kp[q1]).1 < (#[trigger] kp[q2]).1 by {
        assert(kp[q1] == (times[q1], q1 as usize));
        assert(kp[q2] == (times[q2], q2 as usize));
    }
    lemma_sort_pairs_props(kp);
    let sp = sort_pairs(kp);
    assert(times.len() == nrows(t));
    assert forall|q: int| 0 <= q < sp.len()
        implies (#[trigger] sp[q]).1 < nrows(t) && sp[q].0 == times[sp[q].1 as int] by {
        assert(kp.contains(sp[q]));
        let w = choose|w: int| 0 <= w < kp.len() && kp[w] == sp[q];
        assert(kp[w] == (times[w], w as usize));
    }
}

/// After the stable time sort, the time keys stand in ascending order.
pub proof fn lemma_sorted_times(t: Seq<ColV>, ti: int)
    requires
        table_wf(t),
        0 <= ti < t.len(),
        t[ti].data is Times,
        nrows(t) <= usize::MAX,
    ensures
        forall|q1: int, q2: int|
            0 <= q1 < q2 < nrows(t)
                ==> times_of(spec_sort_table(t, ti)[ti])[q1]
                    <= times_of(spec_sort_table(t, ti)[ti])[q2],
{
    lemma_sort_perm_props(t, ti);
    let perm = sort_perm_of(t, ti);
    let times = times_of(t[ti]);
    let out_times = times_of(spec_sort_table(t, ti)[ti]);
    assert(out_times == spec_permute(times, perm));
    assert forall|q1: int, q2: int| 0 <= q1 < q2 < nrows(t)
        implies out_times[q1] <= out_times[q2] by {
        assert(pair_le(perm[q1], perm[q2]));
        assert(out_times[q1] == times[perm[q1].1 as int]);
        assert(out_times[q2] == times[perm[q2].1 as int]);
    }
}

/// The stable time sort keeps a table well-formed, its column count and its
/// row count.
pub proof fn lemma_sort_table_wf(t: Seq<ColV>, ti: int)
    requires
        table_wf(t),
        0 <= ti < t.len(),
        t[ti].data is Times,
        nrows(t) <= usize::MAX,
    ensures
        table_wf(spec_sort_table(t, ti)),
        spec_sort_table(t, ti).len() == t.len(),
        nrows(spec_sort_table(t, ti)) == nrows(t),
{
    lemma_sort_perm_props(t, ti);
    let perm = sort_perm_of(t, ti);
    let s = spec_sort_table(t, ti);
    assert forall|j: int| 0 <= j < s.len()
        implies col_len(#[trigger] s[j]) == nrows(t) && col_wf(s[j]) by {
        assert(s[j] == permute_col(t[j], perm));
        if s[j].data is Nums {
            let v0 = nums_of(t[j]);
            let v1 = nums_of(s[j]);
            assert forall|i: int| 0 <= i < v1.len() implies value_wf(#[trigger] v1[i]) by {
                assert(v1[i] == v0[perm[i].1 as int]);
            }
        }
    }
    assert(col_len(s[0]) == nrows(t));
}

/// Sort all rows of `t` ascending by the time column at index `ti` (stable:
/// equal time keys keep their original relative order).
pub fn sort_table(t: &Table, ti: usize) -> (out: Table)
    requires
        table_wf(t@),
        ti < t@.len(),
        t@[ti as int].data is Times,
    ensures
        out@ == spec_sort_table(t@, ti as int),
        table_wf(out@),
        out@.len() == t@.len(),
        nrows(out@) == nrows(t@),
{
    let times: &Vec<i64> = match &t.cols[ti].data {
        ColData::Times(v) => v,
        ColData::Nums(_) => vstd::pervasive::unreached(),
    };
    let _rows = times.len();
    proof {
        assert(times@ == times_of(t@[ti as int]));
        assert(nrows(t@) == times@.len());
        lemma_sort_perm_props(t@, ti as int);
    }
    let perm = sort_indices(times);
    let ghost permg = perm@;
    let n = t.cols.len();
    let mut cols: Vec<Column> = Vec::new();
    let mut k: usize = 0;
    while k < n
        invariant
            k <= n,
            n == t@.len(),
            table_wf(t@),
            ti < t@.len(),
            t@[ti as int].data is Times,
            permg == sort_perm_of(t@, ti as int),
            perm@ == permg,
            permg.len() == nrows(t@),
            forall|q: int| 0 <= q < permg.len() ==> (#[trigger] permg[q]).1 < nrows(t@),
            cols@.len() == k,
            forall|q: int| 0 <= q < k ==> (#[trigger] cols@[q])@ == permute_col(t@[q], permg),
        decreases n - k,
    {
        let c = &t.cols[k];
        assert(c@ == t@[k as int]);
        assert(col_len(t@[k as int]) == nrows(t@));
        let name2 = c.name.clone();
        let data2 = match &c.data {
            ColData::Times(v) => ColData::Times(permute_cells(v, &perm)),
            ColData::Nums(v) => ColData::Nums(permute_cells(v, &perm)),
        };
        cols.push(Column { name: name2, data: data2 });
        k += 1;
    }
    let out = Table { cols };
    proof {
        assert(out@ =~= spec_sort_table(t@, ti as int));
        assert forall|j: int| 0 <= j < out@.len()
            implies col_len(#[trigger] out@[j]) == nrows(out@) && col_wf(out@[j]) by {
            assert(out@[j] == permute_col(t@[j], permg));
            assert(col_len(out@[j]) == permg.len());
            assert(col_len(out@[0]) == permg.len());
            if out@[j].data is Nums {
                let v0 = nums_of(t@[j]);
                let v1 = nums_of(out@[j]);
                assert forall|i: int| 0 <= i < v1.len() implies value_wf(#[trigger] v1[i]) by {
                    assert(v1[i] == v0[permg[i].1 as int]);
                }
            }
        }
    }
    out
}

} // verus!
