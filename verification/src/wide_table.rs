//! The panel store and its two transforms.
//!
//! A `WideTable` holds a columnar table and the name of its time column.
//! `pct_change` appends, for every asset column, the percent change over a
//! period count; `momentum` appends, on top of the one-period returns, the
//! trailing rolling sum over a window. Both first sort all rows ascending by
//! the time column (stable: equal time keys keep their original order) and
//! never remove or alter existing columns — column accumulation is part of
//! the contract, as are the derived column names
//! `"{base}_pct_change_{periods}"` and `"{base}_momentum_{periods}"`.
//!
//! Undefined-cell policy, stated once and used throughout: a cell is
//! undefined when it has no prior row to compare against, when the prior
//! value is zero (division by zero), or when an exact result leaves the
//! representable canonical range; the rolling window skips undefined cells
//! and emits a defined sum as soon as the window holds at least one defined
//! cell.

use vstd::prelude::*;
use vstd::string::StringExecFns;
use crate::rational::{
    Rat, Value, value_wf, rat_wf, spec_rat_pct, spec_value_pct, value_pct, spec_win_sum, win_acc,
    acc_value, acc_wf, WinAcc, win_step_exec,
};
use crate::table::{
    ColData, ColDataV, ColV, Column, Table, col_len, col_wf, nrows, nums_of, spec_sort_table,
    sort_table, table_wf, times_of,
};

verus! {

/// Why a panel operation failed.
#[derive(Clone, Copy, Debug, PartialEq, Eq, Structural)]
pub enum FactorError {
    /// The required time column is absent at construction.
    Schema,
    /// A file could not be read, parsed or written at the I/O boundary.
    Io,
}

// ---------------------------------------------------------------------------
// Derived column names.
// ---------------------------------------------------------------------------

/// The decimal digit `d` as a character.
pub open spec fn digit_char(d: int) -> char {
    if d == 0 { '0' }
    else if d == 1 { '1' }
    else if d == 2 { '2' }
    else if d == 3 { '3' }
    else if d == 4 { '4' }
    else if d == 5 { '5' }
    else if d == 6 { '6' }
    else if d == 7 { '7' }
    else if d == 8 { '8' }
    else { '9' }
}

/// The decimal digits of `n >= 0`, most significant first.
pub open spec fn dec_str(n: int) -> Seq<char>
    recommends n >= 0,
    decreases n,
{
    if n < 10 {
        seq![digit_char(n)]
    } else {
        dec_str(n / 10).push(digit_char(n % 10))
    }
}

/// Name of the percent-change column derived from `base`.
pub open spec fn pct_name(base: Seq<char>, p: int) -> Seq<char> {
    base + "_pct_change_"@ + dec_str(p)
}

/// Name of the momentum column derived from `base`.
pub open spec fn mom_name(base: Seq<char>, p: int) -> Seq<char> {
    base + "_momentum_"@ + dec_str(p)
}

fn digit_str(d: u32) -> (r: &'static str)
    requires
        d < 10,
    ensures
        r@ == seq![digit_char(d as int)],
{
    proof {
        reveal_strlit("0");
        reveal_strlit("1");
        reveal_strlit("2");
        reveal_strlit("3");
        reveal_strlit("4");
        reveal_strlit("5");
        reveal_strlit("6");
        reveal_strlit("7");
        reveal_strlit("8");
        reveal_strlit("9");
    }
    let r = if d == 0 { "0" }
    else if d == 1 { "1" }
    else if d == 2 { "2" }
    else if d == 3 { "3" }
    else if d == 4 { "4" }
    else if d == 5 { "5" }
    else if d == 6 { "6" }
    else if d == 7 { "7" }
    else if d == 8 { "8" }
    else { "9" };
    proof {
        assert(r@ =~= seq![digit_char(d as int)]);
    }
    r
}

/// Append the decimal digits of `n` to `s`.
fn push_dec(s: &mut String, n: u32)
    ensures
        final(s)@ == old(s)@ + dec_str(n as int),
    decreases n,
{
    if n < 10 {
        s.append(digit_str(n));
    } else {
        push_dec(s, n / 10);
        s.append(digit_str(n % 10));
        proof {
            assert(s@ =~= old(s)@ + dec_str(n as int));
        }
    }
}

fn make_pct_name(base: &String, p: u32) -> (r: String)
    ensures
        r@ == pct_name(base@, p as int),
{
    let mut s = base.clone();
    s.append("_pct_change_");
    push_dec(&mut s, p);
    s
}

fn make_mom_name(base: &String, p: u32) -> (r: String)
    ensures
        r@ == mom_name(base@, p as int),
{
    let mut s = base.clone();
    s.append("_momentum_");
    push_dec(&mut s, p);
    s
}

// ---------------------------------------------------------------------------
// Locating the time column.
// ---------------------------------------------------------------------------

/// Is `c` the time column named `key`?
pub open spec fn is_time_col(c: ColV, key: Seq<char>) -> bool {
    c.name == key && c.data is Times
}

/// Is `c` an asset column (not named `key`, holding values)?
pub open spec fn is_asset_col(c: ColV, key: Seq<char>) -> bool {
    c.name != key && c.data is Nums
}

/// Index of the first time column named `key` at or after `i`; `cols.len()`
/// when there is none.
pub open spec fn time_idx_from(cols: Seq<ColV>, key: Seq<char>, i: int) -> int
    decreases cols.len() - i,
{
    if i < 0 || i >= cols.len() {
        cols.len() as int
    } else if is_time_col(cols[i], key) {
        i
    } else {
        time_idx_from(cols, key, i + 1)
    }
}

/// Index of the first time column named `key`; `cols.len()` when absent.
pub open spec fn time_idx(cols: Seq<ColV>, key: Seq<char>) -> int {
    time_idx_from(cols, key, 0)
}

/// Does a time column named `key` exist?
pub open spec fn has_time_col(cols: Seq<ColV>, key: Seq<char>) -> bool {
    time_idx(cols, key) < cols.len()
}

/// `time_idx_from` finds the first matching column and nothing before it.
pub proof fn lemma_time_idx_from_props(cols: Seq<ColV>, key: Seq<char>, i: int)
    requires
        0 <= i <= cols.len(),
    ensures
        i <= time_idx_from(cols, key, i) <= cols.len(),
        time_idx_from(cols, key, i) < cols.len()
            ==> is_time_col(cols[time_idx_from(cols, key, i)], key),
        forall|q: int| i <= q < time_idx_from(cols, key, i) ==> !is_time_col(#[trigger] cols[q], key),
    decreases cols.len() - i,
{
    if i < cols.len() && !is_time_col(cols[i], key) {
        lemma_time_idx_from_props(cols, key, i + 1);
    }
}

/// If any column is the time column named `key`, one is found.
pub proof fn lemma_has_time_col(cols: Seq<ColV>, key: Seq<char>, i: int)
    requires
        0 <= i < cols.len(),
        is_time_col(cols[i], key),
    ensures
        has_time_col(cols, key),
        0 <= time_idx(cols, key) <= i,
{
    lemma_time_idx_from_props(cols, key, 0);
}

fn find_time_idx(t: &Table, key: &String) -> (r: Option<usize>)
    ensures
        match r {
            Some(i) => i as int == time_idx(t@, key@) && (i as int) < t@.len(),
            None => !has_time_col(t@, key@),
        },
{
    let n = t.cols.len();
    let mut i: usize = 0;
    while i < n
        invariant
            i <= n,
            n == t@.len(),
            time_idx(t@, key@) == time_idx_from(t@, key@, i as int),
        decreases n - i,
    {
        let c = &t.cols[i];
        let is_times = match &c.data {
            ColData::Times(_) => true,
            ColData::Nums(_) => false,
        };
        if is_times && c.name == *key {
            proof {
                assert(c@ == t@[i as int]);
                assert(is_time_col(t@[i as int], key@));
            }
            return Some(i);
        }
        proof {
            assert(c@ == t@[i as int]);
            assert(!is_time_col(t@[i as int], key@));
        }
        i += 1;
    }
    None
}

// ---------------------------------------------------------------------------
// Derived cells.
// ---------------------------------------------------------------------------

/// Percent change of each cell against the cell `p` rows earlier: the first
/// `p` rows have no prior value and are undefined.
pub open spec fn spec_pct_seq(vals: Seq<Value>, p: int) -> Seq<Value>
    recommends p >= 1,
{
    Seq::new(vals.len(), |i: int| if i < p { Value::Undef } else { spec_value_pct(vals[i], vals[i - p]) })
}

/// Start of the trailing window of width `w` that ends at row `i`.
pub open spec fn win_lo(i: int, w: int) -> int {
    if i - w + 1 > 0 { i - w + 1 } else { 0 }
}

/// Trailing rolling sum of width `w` over each row's window.
pub open spec fn spec_roll_seq(vals: Seq<Value>, w: int) -> Seq<Value>
    recommends w >= 1,
{
    Seq::new(vals.len(), |i: int| spec_win_sum(vals, win_lo(i, w), i + 1))
}

fn pct_cells(vals: &Vec<Value>, p: usize) -> (out: Vec<Value>)
    requires
        p >= 1,
        forall|q: int| 0 <= q < vals@.len() ==> value_wf(#[trigger] vals@[q]),
    ensures
        out@ == spec_pct_seq(vals@, p as int),
        forall|q: int| 0 <= q < out@.len() ==> value_wf(#[trigger] out@[q]),
{
    let n = vals.len();
    let mut out: Vec<Value> = Vec::new();
    let mut i: usize = 0;
    while i < n
        invariant
            i <= n,
            n == vals@.len(),
            p >= 1,
            out@.len() == i,
            forall|q: int| 0 <= q < vals@.len() ==> value_wf(#[trigger] vals@[q]),
            forall|q: int|
                0 <= q < i ==> #[trigger] out@[q] == (if q < p as int { Value::Undef } else {
                    spec_value_pct(vals@[q], vals@[q - p as int])
                }),
            forall|q: int| 0 <= q < i ==> value_wf(#[trigger] out@[q]),
        decreases n - i,
    {
        if i < p {
            out.push(Value::Undef);
        } else {
            let v = value_pct(vals[i], vals[i - p]);
            out.push(v);
        }
        i += 1;
    }
    proof {
        assert(out@ =~= spec_pct_seq(vals@, p as int));
    }
    out
}

fn roll_cells(vals: &Vec<Value>, w: usize) -> (out: Vec<Value>)
    requires
        w >= 1,
        forall|q: int| 0 <= q < vals@.len() ==> value_wf(#[trigger] vals@[q]),
    ensures
        out@ == spec_roll_seq(vals@, w as int),
        forall|q: int| 0 <= q < out@.len() ==> value_wf(#[trigger] out@[q]),
{
    let n = vals.len();
    let mut out: Vec<Value> = Vec::new();
    let mut i: usize = 0;
    while i < n
        invariant
            i <= n,
            n == vals@.len(),
            w >= 1,
            out@.len() == i,
            forall|q: int| 0 <= q < vals@.len() ==> value_wf(#[trigger] vals@[q]),
            forall|q: int|
                0 <= q < i ==> #[trigger] out@[q] == spec_win_sum(vals@, win_lo(q, w as int), q + 1),
            forall|q: int| 0 <= q < i ==> value_wf(#[trigger] out@[q]),
        decreases n - i,
    {
        let lo = if i + 1 > w { i + 1 - w } else { 0 };
        proof {
            assert(lo as int == win_lo(i as int, w as int));
        }
        let mut acc = WinAcc::Empty;
        let mut j: usize = lo;
        while j <= i
            invariant
                lo <= j <= i + 1,
                i < n,
                n == vals@.len(),
                forall|q: int| 0 <= q < vals@.len() ==> value_wf(#[trigger] vals@[q]),
                acc == win_acc(vals@, lo as int, j as int),
                acc_wf(acc),
            decreases i + 1 - j,
        {
            acc = win_step_exec(acc, vals[j]);
            j += 1;
        }
        let v = match acc {
            WinAcc::Sum(r) => Value::Num(r),
            _ => Value::Undef,
        };
        proof {
            assert(v == acc_value(win_acc(vals@, lo as int, i + 1)));
        }
        out.push(v);
        i += 1;
    }
    proof {
        assert(out@ =~= spec_roll_seq(vals@, w as int));
    }
    out
}

// ---------------------------------------------------------------------------
// Derived column blocks.
// ---------------------------------------------------------------------------

/// The percent-change column derived from asset column `c`.
pub open spec fn pct_col(c: ColV, p: int) -> ColV
    recommends c.data is Nums,
{
    ColV { name: pct_name(c.name, p), data: ColDataV::Nums(spec_pct_seq(nums_of(c), p)) }
}

/// Number of asset columns (not named `key`, holding values).
pub open spec fn n_assets(cols: Seq<ColV>, key: Seq<char>) -> nat
    decreases cols.len(),
{
    if cols.len() == 0 {
        0
    } else {
        n_assets(cols.drop_last(), key) + (if is_asset_col(cols.last(), key) { 1nat } else { 0nat })
    }
}

/// The percent-change columns of all asset columns, in column order.
pub open spec fn pct_block(cols: Seq<ColV>, key: Seq<char>, p: int) -> Seq<ColV>
    decreases cols.len(),
{
    if cols.len() == 0 {
        Seq::empty()
    } else {
        pct_block(cols.drop_last(), key, p)
            + (if is_asset_col(cols.last(), key) { seq![pct_col(cols.last(), p)] } else { Seq::empty() })
    }
}

/// One more column extends the derived block by its contribution.
proof fn lemma_block_take_step(cols: Seq<ColV>, key: Seq<char>, p: int, i: int)
    requires
        0 <= i < cols.len(),
    ensures
        pct_block(cols.take(i + 1), key, p) == pct_block(cols.take(i), key, p)
            + (if is_asset_col(cols[i], key) { seq![pct_col(cols[i], p)] } else { Seq::empty() }),
        n_assets(cols.take(i + 1), key) == n_assets(cols.take(i), key)
            + (if is_asset_col(cols[i], key) { 1nat } else { 0nat }),
{
    assert(cols.take(i + 1).drop_last() =~= cols.take(i));
    assert(cols.take(i + 1).last() == cols[i]);
}

/// The derived block has one column per asset column.
pub proof fn lemma_pct_block_len(cols: Seq<ColV>, key: Seq<char>, p: int)
    ensures
        pct_block(cols, key, p).len() == n_assets(cols, key),
    decreases cols.len(),
{
    if cols.len() > 0 {
        lemma_pct_block_len(cols.drop_last(), key, p);
    }
}

/// The table that `pct_change` returns: all rows sorted ascending by the
/// time column (stable), the original columns kept unchanged, and one
/// percent-change column per asset column appended in column order.
pub open spec fn spec_returns(cols: Seq<ColV>, key: Seq<char>, p: int) -> Seq<ColV>
    recommends has_time_col(cols, key), p >= 1,
{
    let sorted = spec_sort_table(cols, time_idx(cols, key));
    sorted + pct_block(sorted, key, p)
}

/// A prefix never holds more asset columns than the whole.
proof fn lemma_n_assets_take_le(cols: Seq<ColV>, key: Seq<char>, i: int)
    requires
        0 <= i <= cols.len(),
    ensures
        n_assets(cols.take(i), key) <= n_assets(cols, key),
    decreases cols.len() - i,
{
    if i == cols.len() {
        assert(cols.take(i) =~= cols);
    } else {
        lemma_block_take_step(cols, key, 0, i);
        lemma_n_assets_take_le(cols, key, i + 1);
    }
}

/// Tables of equal length whose columns agree in name and kind have the same
/// asset count.
proof fn lemma_n_assets_congruent(s1: Seq<ColV>, s2: Seq<ColV>, key: Seq<char>)
    requires
        s1.len() == s2.len(),
        forall|q: int|
            0 <= q < s1.len()
                ==> (#[trigger] s1[q]).name == s2[q].name
                    && ((#[trigger] s1[q]).data is Nums <==> s2[q].data is Nums),
    ensures
        n_assets(s1, key) == n_assets(s2, key),
    decreases s1.len(),
{
    if s1.len() > 0 {
        let d1 = s1.drop_last();
        let d2 = s2.drop_last();
        assert(forall|q: int| 0 <= q < d1.len() ==> #[trigger] d1[q] == s1[q]);
        assert(forall|q: int| 0 <= q < d2.len() ==> #[trigger] d2[q] == s2[q]);
        lemma_n_assets_congruent(d1, d2, key);
    }
}

/// Every derived percent-change column holds values.
proof fn lemma_pct_block_elems(cols: Seq<ColV>, key: Seq<char>, p: int)
    ensures
        forall|q: int|
            0 <= q < pct_block(cols, key, p).len()
                ==> (#[trigger] pct_block(cols, key, p)[q]).data is Nums,
    decreases cols.len(),
{
    if cols.len() > 0 {
        lemma_pct_block_elems(cols.drop_last(), key, p);
    }
}

/// The momentum column with window `p` derived from the return column `rc`
/// of the asset column named `base`.
pub open spec fn mom_col(base: Seq<char>, rc: ColV, p: int) -> ColV
    recommends rc.data is Nums,
{
    ColV { name: mom_name(base, p), data: ColDataV::Nums(spec_roll_seq(nums_of(rc), p)) }
}

/// The momentum columns: one per asset column of `orig` (scanned from index
/// `i`), each computed from the matching return column of `rets` (consumed
/// from index `j`), in column order.
pub open spec fn mom_block(
    orig: Seq<ColV>,
    rets: Seq<ColV>,
    key: Seq<char>,
    p: int,
    i: int,
    j: int,
) -> Seq<ColV>
    decreases orig.len() - i,
{
    if i < 0 || i >= orig.len() {
        Seq::empty()
    } else if is_asset_col(orig[i], key) {
        seq![mom_col(orig[i].name, rets[j], p)] + mom_block(orig, rets, key, p, i + 1, j + 1)
    } else {
        mom_block(orig, rets, key, p, i + 1, j)
    }
}

/// The table that `momentum` returns: the one-period-return table, re-sorted
/// by the time column, with one momentum column per asset column appended.
pub open spec fn spec_momentum(cols: Seq<ColV>, key: Seq<char>, p: int) -> Seq<ColV>
    recommends has_time_col(cols, key), p >= 1,
{
    let r1 = spec_returns(cols, key, 1);
    let sorted = spec_sort_table(r1, time_idx(r1, key));
    sorted + mom_block(
        sorted.take(cols.len() as int),
        sorted.skip(cols.len() as int),
        key,
        p,
        0,
        0,
    )
}

// ---------------------------------------------------------------------------
// Laws.
// ---------------------------------------------------------------------------

/// `c` is the percent-change column of some asset column of `cols`.
pub open spec fn pct_cell_witness(cols: Seq<ColV>, key: Seq<char>, p: int, c: ColV) -> bool {
    exists|m: int|
        0 <= m < cols.len() && is_asset_col(#[trigger] cols[m], key) && c == pct_col(cols[m], p)
}

/// Every derived percent-change column is the percent-change column of some
/// asset column.
proof fn lemma_pct_block_cells(cols: Seq<ColV>, key: Seq<char>, p: int)
    ensures
        forall|q: int|
            0 <= q < pct_block(cols, key, p).len()
                ==> pct_cell_witness(cols, key, p, #[trigger] pct_block(cols, key, p)[q]),
    decreases cols.len(),
{
    if cols.len() > 0 {
        let d = cols.drop_last();
        assert(forall|q: int| 0 <= q < d.len() ==> #[trigger] d[q] == cols[q]);
        lemma_pct_block_cells(d, key, p);
        let b = pct_block(cols, key, p);
        let bd = pct_block(d, key, p);
        assert forall|q: int| 0 <= q < b.len()
            implies pct_cell_witness(cols, key, p, #[trigger] b[q]) by {
            if q < bd.len() {
                assert(pct_cell_witness(d, key, p, bd[q]));
                let m = choose|m: int|
                    0 <= m < d.len() && is_asset_col(#[trigger] d[m], key)
                        && bd[q] == pct_col(d[m], p);
                assert(is_asset_col(cols[m], key) && b[q] == pct_col(cols[m], p));
            } else {
                let m = cols.len() - 1;
                assert(is_asset_col(cols[m], key) && b[q] == pct_col(cols[m], p));
            }
        }
    }
}

/// Shape of the returns table: the stable-sorted original columns unchanged,
/// followed by exactly one derived column per asset column, each of the
/// shared row count with its first `p` rows undefined.
pub proof fn lemma_returns_shape(cols: Seq<ColV>, key: Seq<char>, p: int)
    requires
        table_wf(cols),
        has_time_col(cols, key),
        p >= 1,
        nrows(cols) <= usize::MAX,
    ensures
        spec_returns(cols, key, p).len() == cols.len() + n_assets(cols, key),
        forall|q: int|
            0 <= q < cols.len()
                ==> #[trigger] spec_returns(cols, key, p)[q]
                    == spec_sort_table(cols, time_idx(cols, key))[q],
        forall|q: int|
            cols.len() <= q < spec_returns(cols, key, p).len()
                ==> (#[trigger] spec_returns(cols, key, p)[q]).data is Nums
                    && nums_of(spec_returns(cols, key, p)[q]).len() == nrows(cols)
                    && (forall|i: int|
                        0 <= i < p && i < nrows(cols)
                            ==> nums_of(spec_returns(cols, key, p)[q])[i] == Value::Undef),
{
    let ti = time_idx(cols, key);
    lemma_time_idx_from_props(cols, key, 0);
    let sorted = spec_sort_table(cols, ti);
    crate::table::lemma_sort_perm_props(cols, ti);
    assert(sorted.len() == cols.len());
    assert forall|q: int| 0 <= q < cols.len()
        implies (#[trigger] sorted[q]).name == cols[q].name
            && (sorted[q].data is Nums <==> cols[q].data is Nums)
            && col_len(sorted[q]) == nrows(cols) by {}
    lemma_n_assets_congruent(sorted, cols, key);
    lemma_pct_block_len(sorted, key, p);
    lemma_pct_block_cells(sorted, key, p);
    let out = spec_returns(cols, key, p);
    assert forall|q: int| cols.len() <= q < out.len()
        implies (#[trigger] out[q]).data is Nums
            && nums_of(out[q]).len() == nrows(cols)
            && (forall|i: int|
                0 <= i < p && i < nrows(cols) ==> nums_of(out[q])[i] == Value::Undef) by {
        let b = pct_block(sorted, key, p);
        assert(out[q] == b[q - cols.len()]);
        assert(pct_cell_witness(sorted, key, p, b[q - cols.len()]));
        let m = choose|m: int|
            0 <= m < sorted.len() && is_asset_col(#[trigger] sorted[m], key)
                && b[q - cols.len()] == pct_col(sorted[m], p);
        assert(nums_of(sorted[m]).len() == nrows(cols));
    }
}

/// The returns table carries the sorted row order: its time column stands in
/// ascending order. (That ties between equal time keys keep their original
/// relative order is stated by `table::lemma_sort_perm_props`.)
pub proof fn lemma_returns_time_sorted(cols: Seq<ColV>, key: Seq<char>, p: int)
    requires
        table_wf(cols),
        has_time_col(cols, key),
        p >= 1,
        nrows(cols) <= usize::MAX,
    ensures
        forall|q1: int, q2: int|
            0 <= q1 < q2 < nrows(cols)
                ==> times_of(#[trigger] spec_returns(cols, key, p)[time_idx(cols, key)])[q1]
                    <= times_of(spec_returns(cols, key, p)[time_idx(cols, key)])[q2],
{
    let ti = time_idx(cols, key);
    lemma_time_idx_from_props(cols, key, 0);
    crate::table::lemma_sorted_times(cols, ti);
    let sorted = spec_sort_table(cols, ti);
    assert(spec_returns(cols, key, p)[ti] == sorted[ti]);
}

/// After the leading rows, the percent-change cells are defined exactly when
/// each cell and its prior cell are defined and nonzero and the exact result
/// is representable.
pub proof fn lemma_pct_seq_defined(vals: Seq<Value>, p: int)
    requires
        p >= 1,
        forall|i: int|
            0 <= i < vals.len()
                ==> (#[trigger] vals[i]) is Num && vals[i]->Num_0.num != 0,
        forall|i: int|
            p <= i < vals.len() ==> spec_rat_pct((#[trigger] vals[i])->Num_0, vals[i - p]->Num_0) is Num,
    ensures
        forall|i: int|
            0 <= i < vals.len()
                ==> ((#[trigger] spec_pct_seq(vals, p)[i]) is Num <==> i >= p),
{
}

/// A rolling window of width 1 is the identity on a column of cells.
pub proof fn lemma_roll_one(vals: Seq<Value>)
    ensures
        spec_roll_seq(vals, 1) == vals,
{
    assert forall|i: int| 0 <= i < vals.len()
        implies spec_roll_seq(vals, 1)[i] == vals[i] by {
        assert(win_lo(i, 1) == i);
        assert(win_acc(vals, i, i) == WinAcc::Empty);
        assert(win_acc(vals, i, i + 1) == crate::rational::win_step(WinAcc::Empty, vals[i]));
    }
    assert(spec_roll_seq(vals, 1) =~= vals);
}

/// The momentum block holds one column per asset column scanned.
proof fn lemma_mom_block_len(
    orig: Seq<ColV>,
    rets: Seq<ColV>,
    key: Seq<char>,
    p: int,
    i: int,
    j: int,
)
    requires
        0 <= i <= orig.len(),
    ensures
        mom_block(orig, rets, key, p, i, j).len() + n_assets(orig.take(i), key)
            == n_assets(orig, key),
    decreases orig.len() - i,
{
    if i == orig.len() {
        assert(orig.take(i) =~= orig);
    } else {
        lemma_block_take_step(orig, key, 0, i);
        if is_asset_col(orig[i], key) {
            lemma_mom_block_len(orig, rets, key, p, i + 1, j + 1);
        } else {
            lemma_mom_block_len(orig, rets, key, p, i + 1, j);
        }
    }
}

/// `c` is the momentum column, from the return column at `jq`, of some asset
/// column of `orig` at or after `lo`.
pub open spec fn mom_cell_witness(
    orig: Seq<ColV>,
    rets: Seq<ColV>,
    key: Seq<char>,
    p: int,
    lo: int,
    jq: int,
    c: ColV,
) -> bool {
    exists|m: int|
        lo <= m < orig.len() && is_asset_col(#[trigger] orig[m], key)
            && c == mom_col(orig[m].name, rets[jq], p)
}

/// Every momentum column is the rolling sum of its matching return column:
/// the one at the same offset within the derived block.
proof fn lemma_mom_block_elems(
    orig: Seq<ColV>,
    rets: Seq<ColV>,
    key: Seq<char>,
    p: int,
    i: int,
    j: int,
)
    requires
        0 <= i <= orig.len(),
        0 <= j,
    ensures
        forall|q: int|
            0 <= q < mom_block(orig, rets, key, p, i, j).len()
                ==> mom_cell_witness(
                    orig, rets, key, p, i, j + q,
                    #[trigger] mom_block(orig, rets, key, p, i, j)[q],
                ),
    decreases orig.len() - i,
{
    if i < orig.len() {
        let b = mom_block(orig, rets, key, p, i, j);
        if is_asset_col(orig[i], key) {
            lemma_mom_block_elems(orig, rets, key, p, i + 1, j + 1);
            let br = mom_block(orig, rets, key, p, i + 1, j + 1);
            assert forall|q: int| 0 <= q < b.len()
                implies mom_cell_witness(orig, rets, key, p, i, j + q, #[trigger] b[q]) by {
                if q == 0 {
                    assert(is_asset_col(orig[i], key) && b[0] == mom_col(orig[i].name, rets[j], p));
                } else {
                    assert(b[q] == br[q - 1]);
                    assert(mom_cell_witness(orig, rets, key, p, i + 1, j + 1 + (q - 1), br[q - 1]));
                    let m = choose|m: int|
                        i + 1 <= m < orig.len() && is_asset_col(#[trigger] orig[m], key)
                            && br[q - 1] == mom_col(orig[m].name, rets[j + 1 + (q - 1)], p);
                    assert(is_asset_col(orig[m], key) && b[q] == mom_col(orig[m].name, rets[j + q], p));
                }
            }
        } else {
            lemma_mom_block_elems(orig, rets, key, p, i + 1, j);
            let br = mom_block(orig, rets, key, p, i + 1, j);
            assert forall|q: int| 0 <= q < b.len()
                implies mom_cell_witness(orig, rets, key, p, i, j + q, #[trigger] b[q]) by {
                assert(b[q] == br[q]);
                assert(mom_cell_witness(orig, rets, key, p, i + 1, j + q, br[q]));
                let m = choose|m: int|
                    i + 1 <= m < orig.len() && is_asset_col(#[trigger] orig[m], key)
                        && br[q] == mom_col(orig[m].name, rets[j + q], p);
                assert(is_asset_col(orig[m], key) && b[q] == mom_col(orig[m].name, rets[j + q], p));
            }
        }
    }
}

/// Momentum over a window of 1 row is the one-period return itself: each
/// momentum column holds exactly the cells of its return column.
pub proof fn lemma_momentum_one(cols: Seq<ColV>, key: Seq<char>)
    requires
        table_wf(cols),
        has_time_col(cols, key),
        nrows(cols) <= usize::MAX,
    ensures
        forall|q: int|
            spec_returns(cols, key, 1).len() <= q < spec_momentum(cols, key, 1).len()
                ==> nums_of(#[trigger] spec_momentum(cols, key, 1)[q])
                    == nums_of(
                        spec_momentum(cols, key, 1)[q - spec_returns(cols, key, 1).len()
                            + cols.len()],
                    ),
{
    let r1 = spec_returns(cols, key, 1);
    let ti2 = time_idx(r1, key);
    let ti1 = time_idx(cols, key);
    lemma_time_idx_from_props(cols, key, 0);
    let sorted1 = spec_sort_table(cols, ti1);
    crate::table::lemma_sort_table_wf(cols, ti1);
    lemma_pct_block_len(sorted1, key, 1);
    lemma_pct_block_cells(sorted1, key, 1);
    assert(r1.len() == cols.len() + n_assets(sorted1, key));
    assert(is_time_col(r1[ti1], key));
    lemma_has_time_col(r1, key, ti1);
    lemma_time_idx_from_props(r1, key, 0);
    // the returns table is well-formed, so it can be sorted again
    assert(table_wf(r1)) by {
        assert forall|q: int| 0 <= q < r1.len()
            implies col_len(#[trigger] r1[q]) == nrows(r1) && col_wf(r1[q]) by {
            assert(nrows(r1) == col_len(sorted1[0]));
            if q < cols.len() {
                assert(r1[q] == sorted1[q]);
            } else {
                let b = pct_block(sorted1, key, 1);
                assert(r1[q] == b[q - cols.len()]);
                assert(pct_cell_witness(sorted1, key, 1, b[q - cols.len()]));
                let m = choose|m: int|
                    0 <= m < sorted1.len() && is_asset_col(#[trigger] sorted1[m], key)
                        && b[q - cols.len()] == pct_col(sorted1[m], 1);
                assert(col_len(r1[q]) == nums_of(sorted1[m]).len());
                let v = nums_of(r1[q]);
                assert forall|i: int| 0 <= i < v.len() implies value_wf(#[trigger] v[i]) by {
                    if i >= 1 {
                        crate::rational::lemma_spec_value_pct_wf(
                            nums_of(sorted1[m])[i],
                            nums_of(sorted1[m])[i - 1],
                        );
                    }
                }
            }
        }
    }
    let sorted2 = spec_sort_table(r1, ti2);
    crate::table::lemma_sort_table_wf(r1, ti2);
    let n0 = cols.len() as int;
    let origpart = sorted2.take(n0);
    let rets = sorted2.skip(n0);
    lemma_mom_block_elems(origpart, rets, key, 1, 0, 0);
    lemma_mom_block_len(origpart, rets, key, 1, 0, 0);
    let blk = mom_block(origpart, rets, key, 1, 0, 0);
    assert(n_assets(origpart.take(0), key) == 0) by {
        assert(origpart.take(0) =~= Seq::<ColV>::empty());
    }
    assert(blk.len() == n_assets(origpart, key));
    assert(rets.len() == r1.len() - n0);
    let out = spec_momentum(cols, key, 1);
    assert(out == sorted2 + blk);
    // each momentum column pairs the return column at its own offset
    assert(blk.len() <= rets.len()) by {
        assert forall|q: int| 0 <= q < n0
            implies (#[trigger] origpart[q]).name == sorted1[q].name
                && (origpart[q].data is Nums <==> sorted1[q].data is Nums) by {
            assert(origpart[q] == sorted2[q]);
            assert(r1[q] == sorted1[q]);
        }
        lemma_n_assets_congruent(origpart, sorted1, key);
    }
    assert forall|q: int| r1.len() <= q < out.len()
        implies nums_of(#[trigger] out[q]) == nums_of(out[q - r1.len() + cols.len()]) by {
        let qq = q - r1.len();
        assert(out[q] == blk[qq]);
        assert(mom_cell_witness(origpart, rets, key, 1, 0, qq, blk[qq]));
        let m = choose|m: int|
            0 <= m < origpart.len() && is_asset_col(#[trigger] origpart[m], key)
                && blk[qq] == mom_col(origpart[m].name, rets[0 + qq], 1);
        lemma_roll_one(nums_of(rets[qq]));
        assert(out[qq + n0] == sorted2[qq + n0]);
        assert(rets[qq] == sorted2[n0 + qq]);
    }
}

/// On a constant nonzero series, every defined percent-change cell is
/// exactly zero.
pub proof fn lemma_constant_pct_zero(vals: Seq<Value>, p: int, r: Rat)
    requires
        p >= 1,
        rat_wf(r),
        r.num != 0,
        forall|i: int| 0 <= i < vals.len() ==> #[trigger] vals[i] == Value::Num(r),
    ensures
        forall|i: int|
            p <= i < vals.len()
                ==> #[trigger] spec_pct_seq(vals, p)[i] == Value::Num(Rat { num: 0, den: 1 }),
{
    assert forall|i: int| p <= i < vals.len()
        implies #[trigger] spec_pct_seq(vals, p)[i] == Value::Num(Rat { num: 0, den: 1 }) by {
        crate::rational::lemma_rat_pct_self_zero(r);
    }
}

/// On a panel whose asset columns are constant (each one nonzero), every
/// defined cell of every derived returns column is exactly zero: the
/// numerator vanishes while the divisor stays nonzero.
pub proof fn lemma_returns_constant_zero(cols: Seq<ColV>, key: Seq<char>, p: int)
    requires
        table_wf(cols),
        has_time_col(cols, key),
        p >= 1,
        nrows(cols) <= usize::MAX,
        forall|m: int, i: int|
            0 <= m < cols.len() && is_asset_col(#[trigger] cols[m], key)
                && 0 <= i < nums_of(cols[m]).len()
                ==> (#[trigger] nums_of(cols[m])[i]) is Num
                    && nums_of(cols[m])[i]->Num_0.num != 0
                    && nums_of(cols[m])[i] == nums_of(cols[m])[0],
    ensures
        forall|q: int, i: int|
            cols.len() <= q < spec_returns(cols, key, p).len() && p <= i < nrows(cols)
                ==> #[trigger] nums_of(spec_returns(cols, key, p)[q])[i]
                    == Value::Num(Rat { num: 0, den: 1 }),
{
    let ti = time_idx(cols, key);
    lemma_time_idx_from_props(cols, key, 0);
    let sorted = spec_sort_table(cols, ti);
    crate::table::lemma_sort_perm_props(cols, ti);
    let perm = crate::table::sort_perm_of(cols, ti);
    lemma_pct_block_cells(sorted, key, p);
    let out = spec_returns(cols, key, p);
    let b = pct_block(sorted, key, p);
    assert forall|q: int, i: int|
        cols.len() <= q < out.len() && p <= i < nrows(cols)
        implies #[trigger] nums_of(out[q])[i] == Value::Num(Rat { num: 0, den: 1 }) by {
        assert(out[q] == b[q - cols.len()]);
        assert(pct_cell_witness(sorted, key, p, b[q - cols.len()]));
        let m = choose|m: int|
            0 <= m < sorted.len() && is_asset_col(#[trigger] sorted[m], key)
                && b[q - cols.len()] == pct_col(sorted[m], p);
        assert(sorted[m] == crate::table::permute_col(cols[m], perm));
        assert(is_asset_col(cols[m], key));
        let v0 = nums_of(cols[m]);
        let v1 = nums_of(sorted[m]);
        assert(v0.len() == nrows(cols));
        assert(v1[i] == v0[perm[i].1 as int]);
        assert(v1[i - p] == v0[perm[i - p].1 as int]);
        assert(v1[i] == v0[0] && v1[i - p] == v0[0]);
        let r = v0[0]->Num_0;
        assert(rat_wf(r));
        crate::rational::lemma_rat_pct_self_zero(r);
        assert(nums_of(out[q])[i] == spec_value_pct(v1[i], v1[i - p]));
    }
}

/// The transforms are functions of the panel alone: two applications to the
/// same panel with the same period count yield identical panels.
pub proof fn lemma_returns_deterministic(
    cols: Seq<ColV>,
    key: Seq<char>,
    p: int,
    a: Seq<ColV>,
    b: Seq<ColV>,
)
    requires
        a == spec_returns(cols, key, p),
        b == spec_returns(cols, key, p),
    ensures
        a == b,
{
}

/// See `lemma_returns_deterministic`: the same, for momentum.
pub proof fn lemma_momentum_deterministic(
    cols: Seq<ColV>,
    key: Seq<char>,
    p: int,
    a: Seq<ColV>,
    b: Seq<ColV>,
)
    requires
        a == spec_momentum(cols, key, p),
        b == spec_momentum(cols, key, p),
    ensures
        a == b,
{
}

// ---------------------------------------------------------------------------
// The panel store.
// ---------------------------------------------------------------------------

/// An immutable time-indexed panel: a wide table and the name of its time
/// column.
#[derive(Clone, Debug)]
pub struct WideTable {
    pub df: Table,
    pub time_col: String,
}

impl WideTable {
    /// Validity: the table is well-formed and its time column exists.
    pub open spec fn wf(self) -> bool {
        table_wf(self.df@) && has_time_col(self.df@, self.time_col@)
    }

    /// Construct a panel over `df` with time column `time_col`.
    ///
    /// Succeeds exactly when a time column named `time_col` is present, and
    /// then stores both verbatim; otherwise fails with the schema error.
    pub fn new(df: Table, time_col: String) -> (r: Result<WideTable, FactorError>)
        requires
            table_wf(df@),
        ensures
            r is Ok <==> has_time_col(df@, time_col@),
            r is Ok ==> r.unwrap() == (WideTable { df: df, time_col: time_col }) && r.unwrap().wf(),
            !has_time_col(df@, time_col@) ==> r == Err::<WideTable, FactorError>(FactorError::Schema),
    {
        match find_time_idx(&df, &time_col) {
            Some(_) => Ok(WideTable { df, time_col }),
            None => Err(FactorError::Schema),
        }
    }

    /// The underlying table, read-only.
    pub fn df(&self) -> (r: &Table)
        ensures
            r == &self.df,
    {
        &self.df
    }

    /// The time-column name, unchanged from construction.
    pub fn time_col(&self) -> (r: &str)
        ensures
            r@ == self.time_col@,
    {
        self.time_col.as_str()
    }

    /// Percent change (returns) over `periods` rows.
    ///
    /// Sorts all rows ascending by the time column (stable) and appends, for
    /// every asset column `c`, the column `"{c}_pct_change_{periods}"` whose
    /// row `i` holds the exact value `(v[i] - v[i-periods]) / v[i-periods] * 100`
    /// of the sorted cells, undefined for the first `periods` rows and on
    /// division by zero.
    pub fn pct_change(&self, periods: i32) -> (r: Result<WideTable, FactorError>)
        requires
            self.wf(),
            1 <= periods,
        ensures
            r is Ok,
            r.unwrap().time_col@ == self.time_col@,
            r.unwrap().df@ == spec_returns(self.df@, self.time_col@, periods as int),
            r.unwrap().wf(),
    {
        let ghost key = self.time_col@;
        let ti = match find_time_idx(&self.df, &self.time_col) {
            Some(i) => i,
            None => vstd::pervasive::unreached(),
        };
        proof {
            lemma_time_idx_from_props(self.df@, key, 0);
        }
        let sorted = sort_table(&self.df, ti);
        let ghost sortedv = sorted@;
        let p: usize = periods as usize;
        let pu: u32 = periods as u32;
        let n = sorted.cols.len();
        let mut derived: Vec<Column> = Vec::new();
        let mut k: usize = 0;
        while k < n
            invariant
                k <= n,
                n == sortedv.len(),
                sorted@ == sortedv,
                sorted.cols@.len() == n,
                table_wf(sortedv),
                key == self.time_col@,
                p as int == periods as int,
                pu as int == periods as int,
                p >= 1,
                derived@.map_values(|c: Column| c@) == pct_block(sortedv.take(k as int), key, periods as int),
                forall|q: int|
                    0 <= q < derived@.len()
                        ==> col_wf((#[trigger] derived@[q])@)
                            && col_len(derived@[q]@) == nrows(sortedv),
            decreases n - k,
        {
            let c = &sorted.cols[k];
            proof {
                assert(c@ == sortedv[k as int]);
                assert(col_len(sortedv[k as int]) == nrows(sortedv));
                assert(col_wf(sortedv[k as int]));
            }
            let ghost old_derived = derived@;
            let is_num = match &c.data {
                ColData::Nums(_) => true,
                ColData::Times(_) => false,
            };
            if is_num && !(c.name == self.time_col) {
                let name2 = make_pct_name(&c.name, pu);
                let data2 = match &c.data {
                    ColData::Nums(v) => ColData::Nums(pct_cells(v, p)),
                    ColData::Times(_) => vstd::pervasive::unreached(),
                };
                derived.push(Column { name: name2, data: data2 });
                proof {
                    assert(is_asset_col(sortedv[k as int], key));
                    lemma_block_take_step(sortedv, key, periods as int, k as int);
                    assert(derived@.last()@ =~= pct_col(sortedv[k as int], periods as int));
                    assert(derived@.map_values(|c: Column| c@)
                        =~= pct_block(sortedv.take(k as int + 1), key, periods as int));
                }
            } else {
                proof {
                    assert(!is_asset_col(sortedv[k as int], key));
                    lemma_block_take_step(sortedv, key, periods as int, k as int);
                    assert(derived@.map_values(|c: Column| c@)
                        =~= pct_block(sortedv.take(k as int + 1), key, periods as int));
                }
            }
            k += 1;
        }
        proof {
            assert(sortedv.take(n as int) =~= sortedv);
        }
        let ghost derivedv = derived@;
        let mut cols = sorted.cols;
        cols.append(&mut derived);
        let out = Table { cols };
        proof {
            assert(out@ =~= spec_returns(self.df@, key, periods as int));
            lemma_pct_block_len(sortedv, key, periods as int);
            assert(nrows(out@) == nrows(sortedv));
            assert forall|j: int| 0 <= j < out@.len()
                implies col_len(#[trigger] out@[j]) == nrows(out@) && col_wf(out@[j]) by {
                if j < n {
                    assert(out@[j] == sortedv[j]);
                } else {
                    assert(out@[j] == derivedv[j - n]@);
                }
            }
            assert(is_time_col(out@[ti as int], key));
            lemma_has_time_col(out@, key, ti as int);
        }
        Ok(WideTable { df: out, time_col: self.time_col.clone() })
    }

    /// Momentum over a trailing window of `periods` rows.
    ///
    /// First computes the one-period returns (`pct_change(1)`), re-sorts by
    /// the time column, then appends, for every asset column `c`, the column
    /// `"{c}_momentum_{periods}"`: the trailing rolling sum of the one-period
    /// return column over a window of `periods` rows, where undefined cells
    /// are skipped and one defined cell in the window suffices for a defined
    /// sum. The result keeps the original price columns and the intermediate
    /// return columns.
    pub fn momentum(&self, periods: i32) -> (r: Result<WideTable, FactorError>)
        requires
            self.wf(),
            1 <= periods,
        ensures
            r is Ok,
            r.unwrap().time_col@ == self.time_col@,
            r.unwrap().df@ == spec_momentum(self.df@, self.time_col@, periods as int),
            r.unwrap().wf(),
    {
        let ghost key = self.time_col@;
        let r1 = match self.pct_change(1) {
            Ok(t) => t,
            Err(_) => vstd::pervasive::unreached(),
        };
        let ghost r1v = r1.df@;
        let ti2 = match find_time_idx(&r1.df, &r1.time_col) {
            Some(i) => i,
            None => vstd::pervasive::unreached(),
        };
        proof {
            lemma_time_idx_from_props(r1v, key, 0);
        }
        let sorted = sort_table(&r1.df, ti2);
        let ghost sortedv = sorted@;
        let n0 = self.df.cols.len();
        let ghost origv = self.df@;
        let ghost sorted1 = spec_sort_table(origv, time_idx(origv, key));
        let ghost origpart = sortedv.take(n0 as int);
        let ghost rets = sortedv.skip(n0 as int);
        proof {
            lemma_pct_block_len(sorted1, key, 1);
            lemma_pct_block_elems(sorted1, key, 1);
            assert(r1v.len() == n0 + n_assets(sorted1, key));
            // columns of the twice-sorted table keep the names and kinds of
            // the once-sorted one, hence of the original
            assert forall|q: int| 0 <= q < n0
                implies (#[trigger] origpart[q]).name == origv[q].name
                    && (origpart[q].data is Nums <==> origv[q].data is Nums) by {
                assert(r1v[q] == sorted1[q]);
            }
            assert forall|q: int| 0 <= q < rets.len()
                implies (#[trigger] rets[q]).data is Nums by {
                assert(rets[q] == sortedv[n0 + q]);
                assert(r1v[n0 + q] == pct_block(sorted1, key, 1)[q]);
            }
            lemma_n_assets_congruent(origpart, sorted1, key);
            // and the once-sorted table keeps them too
            assert forall|q: int| 0 <= q < n0
                implies (#[trigger] sorted1[q]).name == origv[q].name
                    && (sorted1[q].data is Nums <==> origv[q].data is Nums) by {}
            lemma_n_assets_congruent(sorted1, origv, key);
            assert(rets.len() == n_assets(origpart, key));
        }
        let p: usize = periods as usize;
        let pu: u32 = periods as u32;
        let ns = sorted.cols.len();
        let mut derived: Vec<Column> = Vec::new();
        let mut i: usize = 0;
        let mut j: usize = 0;
        while i < n0
            invariant
                i <= n0,
                n0 == origv.len(),
                origv == self.df@,
                key == self.time_col@,
                sorted@ == sortedv,
                sorted.cols@.len() == sortedv.len(),
                ns == sortedv.len(),
                sortedv.len() == n0 + rets.len(),
                table_wf(sortedv),
                origpart == sortedv.take(n0 as int),
                rets == sortedv.skip(n0 as int),
                origpart.len() == n0,
                rets.len() == n_assets(origpart, key),
                forall|q: int|
                    0 <= q < n0
                        ==> (#[trigger] origpart[q]).name == origv[q].name
                            && (origpart[q].data is Nums <==> origv[q].data is Nums),
                forall|q: int| 0 <= q < rets.len() ==> (#[trigger] rets[q]).data is Nums,
                p as int == periods as int,
                pu as int == periods as int,
                p >= 1,
                j as int == n_assets(origpart.take(i as int), key),
                j <= rets.len(),
                mom_block(origpart, rets, key, periods as int, 0, 0)
                    == derived@.map_values(|c: Column| c@)
                        + mom_block(origpart, rets, key, periods as int, i as int, j as int),
                forall|q: int|
                    0 <= q < derived@.len()
                        ==> col_wf((#[trigger] derived@[q])@)
                            && col_len(derived@[q]@) == nrows(sortedv),
            decreases n0 - i,
    {
            let c = &self.df.cols[i];
            proof {
                assert(c@ == origv[i as int]);
                lemma_block_take_step(origpart, key, 0, i as int);
            }
            let is_num = match &c.data {
                ColData::Nums(_) => true,
                ColData::Times(_) => false,
            };
            if is_num && !(c.name == self.time_col) {
                proof {
                    assert(is_asset_col(origpart[i as int], key));
                    lemma_n_assets_take_le(origpart, key, i as int + 1);
                    assert(j < rets.len());
                    assert(n0 + j < ns);
                }
                let name2 = make_mom_name(&c.name, pu);
                let rc = &sorted.cols[n0 + j];
                proof {
                    assert(rc@ == sortedv[n0 + j as int]);
                    assert(rc@ == rets[j as int]);
                    assert(col_wf(rc@));
                    assert(col_len(rc@) == nrows(sortedv));
                }
                let data2 = match &rc.data {
                    ColData::Nums(v) => ColData::Nums(roll_cells(v, p)),
                    ColData::Times(_) => vstd::pervasive::unreached(),
                };
                derived.push(Column { name: name2, data: data2 });
                proof {
                    let ghost mc = mom_col(origpart[i as int].name, rets[j as int], periods as int);
                    assert(derived@.last()@ =~= mc);
                    assert(mom_block(origpart, rets, key, periods as int, i as int, j as int)
                        == seq![mc] + mom_block(origpart, rets, key, periods as int, i as int + 1, j as int + 1));
                    assert(derived@.map_values(|c: Column| c@)
                        =~= derived@.drop_last().map_values(|c: Column| c@).push(mc));
                    assert(mom_block(origpart, rets, key, periods as int, 0, 0)
                        =~= derived@.map_values(|c: Column| c@)
                            + mom_block(origpart, rets, key, periods as int, i as int + 1, j as int + 1));
                }
                j += 1;
            } else {
                proof {
                    assert(!is_asset_col(origpart[i as int], key));
                    assert(mom_block(origpart, rets, key, periods as int, i as int, j as int)
                        == mom_block(origpart, rets, key, periods as int, i as int + 1, j as int));
                }
            }
            i += 1;
        }
        let ghost derivedv = derived@;
        let mut cols = sorted.cols;
        cols.append(&mut derived);
        let out = Table { cols };
        proof {
            assert(mom_block(origpart, rets, key, periods as int, n0 as int, j as int)
                =~= Seq::<ColV>::empty());
            assert(derivedv.map_values(|c: Column| c@)
                == mom_block(origpart, rets, key, periods as int, 0, 0));
            assert(out@ =~= spec_momentum(origv, key, periods as int));
            assert(nrows(out@) == nrows(sortedv));
            assert forall|q: int| 0 <= q < out@.len()
                implies col_len(#[trigger] out@[q]) == nrows(out@) && col_wf(out@[q]) by {
                if q < sortedv.len() {
                    assert(out@[q] == sortedv[q]);
                } else {
                    assert(out@[q] == derivedv[q - sortedv.len()]@);
                }
            }
            assert(is_time_col(out@[ti2 as int], key));
            lemma_has_time_col(out@, key, ti2 as int);
        }
        Ok(WideTable { df: out, time_col: self.time_col.clone() })
    }
}

} // verus!
