use chrono::Datelike;
use chrono::NaiveDate;
use quant_factor::{ColData, Column, FactorCalculator, FactorError, Rat, Table, Value, WideTable};

fn num(n: i64, d: i64) -> Value {
    Value::Num(Rat { num: n, den: d })
}

fn times_col(name: &str, ts: Vec<i64>) -> Column {
    Column { name: name.to_string(), data: ColData::Times(ts) }
}

fn nums_col(name: &str, vs: Vec<Value>) -> Column {
    Column { name: name.to_string(), data: ColData::Nums(vs) }
}

fn get_nums(t: &Table, idx: usize) -> &Vec<Value> {
    match &t.cols[idx].data {
        ColData::Nums(v) => v,
        ColData::Times(_) => panic!("expected a value column"),
    }
}

fn get_times(t: &Table, idx: usize) -> &Vec<i64> {
    match &t.cols[idx].data {
        ColData::Times(v) => v,
        ColData::Nums(_) => panic!("expected the time column"),
    }
}

fn tables_equal(a: &Table, b: &Table) -> bool {
    if a.cols.len() != b.cols.len() {
        return false;
    }
    for i in 0..a.cols.len() {
        if a.cols[i].name != b.cols[i].name {
            return false;
        }
        let same = match (&a.cols[i].data, &b.cols[i].data) {
            (ColData::Times(x), ColData::Times(y)) => x == y,
            (ColData::Nums(x), ColData::Nums(y)) => x == y,
            _ => false,
        };
        if !same {
            return false;
        }
    }
    true
}

/// The closes of the specification's concrete scenario:
/// [10.0, 10.2, 10.5, 10.3, 10.8] as exact rationals.
fn sample_panel() -> WideTable {
    let table = Table {
        cols: vec![
            times_col("date", vec![1, 2, 3, 4, 5]),
            nums_col(
                "close",
                vec![num(10, 1), num(51, 5), num(21, 2), num(103, 10), num(54, 5)],
            ),
        ],
    };
    WideTable::new(table, "date".to_string()).unwrap()
}

#[test]
fn test_wide_table_creation() {
    let dates = vec![
        NaiveDate::from_ymd_opt(2024, 1, 1).unwrap(),
        NaiveDate::from_ymd_opt(2024, 1, 2).unwrap(),
        NaiveDate::from_ymd_opt(2024, 1, 3).unwrap(),
    ];
    let day_numbers: Vec<i64> = dates.iter().map(|d| d.num_days_from_ce() as i64).collect();
    let stock_a = vec![num(100, 1), num(102, 1), num(104, 1)];
    let stock_b = vec![num(50, 1), num(51, 1), num(49, 1)];
    let df = Table {
        cols: vec![
            times_col("date", day_numbers),
            nums_col("stock_A", stock_a),
            nums_col("stock_B", stock_b),
        ],
    };
    let table = WideTable::new(df, "date".to_string()).unwrap();
    assert_eq!(table.time_col(), "date");
}

#[test]
fn test_construction_missing_time_column_fails() {
    let df = Table {
        cols: vec![times_col("date", vec![1, 2]), nums_col("close", vec![num(1, 1), num(2, 1)])],
    };
    let r = WideTable::new(df, "timestamp".to_string());
    assert_eq!(r.unwrap_err(), FactorError::Schema);
}

#[test]
fn test_construction_keeps_table_and_key() {
    let df = Table {
        cols: vec![times_col("ts", vec![7, 9]), nums_col("a", vec![num(3, 1), num(4, 1)])],
    };
    let t = WideTable::new(df, "ts".to_string()).unwrap();
    assert_eq!(t.time_col(), "ts");
    assert_eq!(t.df().cols.len(), 2);
    assert_eq!(t.df().cols[0].name, "ts");
    assert_eq!(get_times(t.df(), 0), &vec![7, 9]);
    assert_eq!(get_nums(t.df(), 1), &vec![num(3, 1), num(4, 1)]);
}

#[test]
fn test_returns_concrete_series() {
    let panel = sample_panel();
    let out = panel.pct_change(1).unwrap();
    let df = out.df();
    assert_eq!(df.cols.len(), 3);
    assert_eq!(df.cols[0].name, "date");
    assert_eq!(df.cols[1].name, "close");
    assert_eq!(df.cols[2].name, "close_pct_change_1");
    // original columns kept unchanged
    assert_eq!(get_times(df, 0), &vec![1, 2, 3, 4, 5]);
    assert_eq!(
        get_nums(df, 1),
        &vec![num(10, 1), num(51, 5), num(21, 2), num(103, 10), num(54, 5)]
    );
    // percent units: 2.0, 2.941176..., -1.904762..., 4.854369...
    assert_eq!(
        get_nums(df, 2),
        &vec![Value::Undef, num(2, 1), num(50, 17), num(-40, 21), num(500, 103)]
    );
}

#[test]
fn test_momentum_window_three() {
    let panel = sample_panel();
    let out = panel.momentum(3).unwrap();
    let df = out.df();
    // price columns, intermediate one-period returns, then momentum
    assert_eq!(df.cols.len(), 4);
    assert_eq!(df.cols[2].name, "close_pct_change_1");
    assert_eq!(df.cols[3].name, "close_momentum_3");
    let mom = get_nums(df, 3);
    // row 0: only the undefined leading return in the window
    assert_eq!(mom[0], Value::Undef);
    // row 1: sum of the available returns among rows 0..=1
    assert_eq!(mom[1], num(2, 1));
    // row 2: 2.0 + 2.941176... = 4.941176...
    assert_eq!(mom[2], num(84, 17));
    // row 3: 2.0 + 50/17 - 40/21
    assert_eq!(mom[3], num(1084, 357));
    // row 4: sum of the one-period returns at rows 2..=4
    assert_eq!(mom[4], num(216610, 36771));
}

#[test]
fn test_momentum_window_one_is_returns() {
    let panel = sample_panel();
    let out = panel.momentum(1).unwrap();
    let df = out.df();
    assert_eq!(df.cols[3].name, "close_momentum_1");
    assert_eq!(get_nums(df, 3), get_nums(df, 2));
}

#[test]
fn test_returns_constant_series_is_zero() {
    let df = Table {
        cols: vec![
            times_col("date", vec![1, 2, 3, 4]),
            nums_col("close", vec![num(17, 4), num(17, 4), num(17, 4), num(17, 4)]),
        ],
    };
    let panel = WideTable::new(df, "date".to_string()).unwrap();
    let out = panel.pct_change(1).unwrap();
    assert_eq!(
        get_nums(out.df(), 2),
        &vec![Value::Undef, num(0, 1), num(0, 1), num(0, 1)]
    );
}

#[test]
fn test_returns_leading_undefined_and_column_count() {
    let df = Table {
        cols: vec![
            times_col("date", vec![1, 2, 3, 4, 5]),
            nums_col("a", vec![num(1, 1), num(2, 1), num(3, 1), num(4, 1), num(5, 1)]),
            nums_col("b", vec![num(2, 1), num(4, 1), num(8, 1), num(16, 1), num(32, 1)]),
        ],
    };
    let panel = WideTable::new(df, "date".to_string()).unwrap();
    let out = panel.pct_change(2).unwrap();
    let df2 = out.df();
    // one derived column per asset column
    assert_eq!(df2.cols.len(), 5);
    assert_eq!(df2.cols[3].name, "a_pct_change_2");
    assert_eq!(df2.cols[4].name, "b_pct_change_2");
    for idx in [3, 4] {
        let v = get_nums(df2, idx);
        assert_eq!(v[0], Value::Undef);
        assert_eq!(v[1], Value::Undef);
        for i in 2..v.len() {
            assert!(matches!(v[i], Value::Num(_)));
        }
    }
    // (3-1)/1*100 = 200, (4-2)/2*100 = 100, (5-3)/3*100 = 200/3
    assert_eq!(get_nums(df2, 3), &vec![
        Value::Undef, Value::Undef, num(200, 1), num(100, 1), num(200, 3),
    ]);
    // b quadruples over two rows: 300 percent each time
    assert_eq!(get_nums(df2, 4), &vec![
        Value::Undef, Value::Undef, num(300, 1), num(300, 1), num(300, 1),
    ]);
}

#[test]
fn test_sorts_rows_by_time() {
    let df = Table {
        cols: vec![
            times_col("date", vec![3, 1, 2]),
            nums_col("close", vec![num(30, 1), num(10, 1), num(20, 1)]),
        ],
    };
    let panel = WideTable::new(df, "date".to_string()).unwrap();
    let out = panel.pct_change(1).unwrap();
    assert_eq!(get_times(out.df(), 0), &vec![1, 2, 3]);
    assert_eq!(get_nums(out.df(), 1), &vec![num(10, 1), num(20, 1), num(30, 1)]);
    assert_eq!(get_nums(out.df(), 2), &vec![Value::Undef, num(100, 1), num(50, 1)]);
}

#[test]
fn test_stable_sort_keeps_tied_rows_in_order() {
    let df = Table {
        cols: vec![
            times_col("date", vec![2, 1, 1]),
            nums_col("close", vec![num(3, 1), num(1, 1), num(2, 1)]),
        ],
    };
    let panel = WideTable::new(df, "date".to_string()).unwrap();
    let out = panel.pct_change(1).unwrap();
    // the two rows with time key 1 keep their original relative order
    assert_eq!(get_times(out.df(), 0), &vec![1, 1, 2]);
    assert_eq!(get_nums(out.df(), 1), &vec![num(1, 1), num(2, 1), num(3, 1)]);
}

#[test]
fn test_division_by_zero_gives_undefined() {
    let df = Table {
        cols: vec![
            times_col("date", vec![1, 2, 3]),
            nums_col("close", vec![num(0, 1), num(5, 1), num(10, 1)]),
        ],
    };
    let panel = WideTable::new(df, "date".to_string()).unwrap();
    let out = panel.pct_change(1).unwrap();
    let v = get_nums(out.df(), 2);
    assert_eq!(v[0], Value::Undef);
    // prior value is zero: undefined, not an error
    assert_eq!(v[1], Value::Undef);
    assert_eq!(v[2], num(100, 1));
}

#[test]
fn test_unrepresentable_result_gives_undefined() {
    let df = Table {
        cols: vec![
            times_col("date", vec![1, 2]),
            nums_col("close", vec![num(1, 1), num(i64::MAX, 1)]),
        ],
    };
    let panel = WideTable::new(df, "date".to_string()).unwrap();
    let out = panel.pct_change(1).unwrap();
    let v = get_nums(out.df(), 2);
    assert_eq!(v[0], Value::Undef);
    // the exact percent change does not fit the canonical form
    assert_eq!(v[1], Value::Undef);
}

#[test]
fn test_undefined_cells_skipped_in_momentum_window() {
    let df = Table {
        cols: vec![
            times_col("date", vec![1, 2, 3]),
            nums_col("close", vec![Value::Undef, num(5, 1), num(10, 1)]),
        ],
    };
    let panel = WideTable::new(df, "date".to_string()).unwrap();
    let out = panel.momentum(2).unwrap();
    let ret = get_nums(out.df(), 2);
    assert_eq!(ret, &vec![Value::Undef, Value::Undef, num(100, 1)]);
    let mom = get_nums(out.df(), 3);
    // windows with no defined return are undefined; one defined cell suffices
    assert_eq!(mom[0], Value::Undef);
    assert_eq!(mom[1], Value::Undef);
    assert_eq!(mom[2], num(100, 1));
}

#[test]
fn test_returns_idempotent() {
    let panel = sample_panel();
    let a = panel.pct_change(1).unwrap();
    let b = panel.pct_change(1).unwrap();
    assert!(tables_equal(a.df(), b.df()));
    assert_eq!(a.time_col(), b.time_col());
}

#[test]
fn test_momentum_idempotent() {
    let panel = sample_panel();
    let a = panel.momentum(3).unwrap();
    let b = panel.momentum(3).unwrap();
    assert!(tables_equal(a.df(), b.df()));
    assert_eq!(a.time_col(), b.time_col());
}

#[test]
fn test_facade_delegates() {
    let panel = sample_panel();
    let r1 = FactorCalculator::calculate_returns(&panel, 1).unwrap();
    let r2 = panel.pct_change(1).unwrap();
    assert!(tables_equal(r1.df(), r2.df()));
    let m1 = FactorCalculator::calculate_momentum(&panel, 3).unwrap();
    let m2 = panel.momentum(3).unwrap();
    assert!(tables_equal(m1.df(), m2.df()));
}
