use nbody::pascal::{build_pascal_table, PASCAL_COLS, PASCAL_ROWS};

#[test]
fn pascal_table_holds_binomial_coefficients() {
    let t = build_pascal_table();
    assert_eq!(t[0], [1, 0, 0, 0, 0, 0]);
    assert_eq!(t[1], [1, 1, 0, 0, 0, 0]);
    assert_eq!(t[4], [1, 4, 6, 4, 1, 0]);
    assert_eq!(t[5], [1, 5, 10, 10, 5, 1]);
    assert_eq!(t[9], [1, 9, 36, 84, 126, 126]);
    assert_eq!(t[8][5], 56);
    assert_eq!(t[2][3], 0);
}

#[test]
fn pascal_table_follows_pascals_rule() {
    let t = build_pascal_table();
    for n in 1..PASCAL_ROWS {
        assert_eq!(t[n][0], 1);
        for k in 1..PASCAL_COLS {
            assert_eq!(t[n][k], t[n - 1][k - 1] + t[n - 1][k]);
        }
    }
    for n in 0..PASCAL_COLS {
        assert_eq!(t[n].iter().sum::<u64>(), 1u64 << n);
        for k in 0..=n {
            assert_eq!(t[n][k], t[n][n - k]);
        }
    }
}
