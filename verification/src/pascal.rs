use vstd::prelude::*;

verus! {

/// The order of the multipole and local expansions of the adaptive solver.
pub const P: usize = 5;

/// Rows of the binomial table: the translations read `C(n, k)` for `n` up to `2P - 1`.
pub const PASCAL_ROWS: usize = 10;

/// Columns of the binomial table: `k` runs from 0 to `P`.
pub const PASCAL_COLS: usize = 6;

/// The binomial coefficient `C(n, k)`, by Pascal's rule.
pub open spec fn binomial(n: nat, k: nat) -> nat
    decreases n,
{
    if k == 0 {
        1
    } else if n == 0 {
        0
    } else {
        binomial((n - 1) as nat, (k - 1) as nat) + binomial((n - 1) as nat, k)
    }
}

pub open spec fn pow2(n: nat) -> nat
    decreases n,
{
    if n == 0 { 1 } else { 2 * pow2((n - 1) as nat) }
}

proof fn lemma_binomial_above_row(n: nat, k: nat)
    requires
        k > n,
    ensures
        binomial(n, k) == 0,
    decreases n,
{
    if n > 0 {
        lemma_binomial_above_row((n - 1) as nat, (k - 1) as nat);
        lemma_binomial_above_row((n - 1) as nat, k);
    }
}

proof fn lemma_binomial_bounded(n: nat, k: nat)
    ensures
        binomial(n, k) <= pow2(n),
    decreases n,
{
    if k > 0 && n > 0 {
        lemma_binomial_bounded((n - 1) as nat, (k - 1) as nat);
        lemma_binomial_bounded((n - 1) as nat, k);
    } else if k > 0 {
    } else {
        lemma_pow2_positive(n);
    }
}

proof fn lemma_pow2_positive(n: nat)
    ensures
        pow2(n) >= 1,
    decreases n,
{
    if n > 0 {
        lemma_pow2_positive((n - 1) as nat);
    }
}

proof fn lemma_pow2_of_table_rows(n: nat)
    requires
        n < PASCAL_ROWS,
    ensures
        pow2(n) <= 512,
{
    reveal_with_fuel(pow2, 11);
}

/// Whether `table` holds `C(n, k)` at row `n`, column `k`, for every row
/// below `rows`.
pub open spec fn rows_are_binomial(table: [[u64; PASCAL_COLS]; PASCAL_ROWS], rows: int) -> bool {
    forall|n: int, k: int|
        0 <= n < rows && 0 <= k < PASCAL_COLS ==> #[trigger] table@[n]@[k] == binomial(n as nat, k as nat)
}

/// The table of binomial coefficients `C(n, k)` for `n < 2P` and `k <= P`
/// that the multipole translations read (zero where `k > n`).
pub fn build_pascal_table() -> (table: [[u64; PASCAL_COLS]; PASCAL_ROWS])
    ensures
        rows_are_binomial(table, PASCAL_ROWS as int),
{
    let mut table: [[u64; PASCAL_COLS]; PASCAL_ROWS] = [[0u64; PASCAL_COLS]; PASCAL_ROWS];
    let mut n: usize = 0;
    while n < PASCAL_ROWS
        invariant
            n <= PASCAL_ROWS,
            rows_are_binomial(table, n as int),
        decreases PASCAL_ROWS - n,
    {
        let mut row: [u64; PASCAL_COLS] = [0u64; PASCAL_COLS];
        row[0] = 1;
        let last: usize = if n < P { n } else { P };
        let mut k: usize = 1;
        while k <= last
            invariant
                1 <= k <= last + 1,
                last <= P,
                last <= n,
                n < PASCAL_ROWS,
                rows_are_binomial(table, n as int),
                row@[0] == 1,
                forall|j: int| 1 <= j < k ==> #[trigger] row@[j] == binomial(n as nat, j as nat),
                forall|j: int| k <= j < PASCAL_COLS ==> #[trigger] row@[j] == 0,
            decreases last + 1 - k,
        {
            proof {
                let prev = (n - 1) as nat;
                assert(table@[prev as int]@[k - 1] == binomial(prev, (k - 1) as nat));
                assert(table@[prev as int]@[k as int] == binomial(prev, k as nat));
                lemma_binomial_bounded(prev, (k - 1) as nat);
                lemma_binomial_bounded(prev, k as nat);
                lemma_pow2_of_table_rows(prev);
            }
            row[k] = table[n - 1][k - 1] + table[n - 1][k];
            k = k + 1;
        }
        proof {
            assert forall|j: int| 0 <= j < PASCAL_COLS implies #[trigger] row@[j] == binomial(n as nat, j as nat) by {
                if j > last {
                    if j > n {
                        lemma_binomial_above_row(n as nat, j as nat);
                    }
                }
            }
        }
        table[n] = row;
        n = n + 1;
    }
    table
}

/// Each entry of the table is the sum of the two entries above it (Pascal's
/// rule), the edges of the triangle hold 1, and the rows are symmetric:
/// `C(n, k) == C(n, n - k)`.
pub proof fn lemma_pascal_table_laws(n: nat, k: nat)
    ensures
        binomial(n, 0) == 1,
        binomial(n, n) == 1,
        n > 0 && k > 0 ==> binomial(n, k) == binomial((n - 1) as nat, (k - 1) as nat) + binomial((n - 1) as nat, k),
        k <= n ==> binomial(n, k) == binomial(n, (n - k) as nat),
{
    lemma_binomial_diagonal(n);
    if k <= n {
        lemma_binomial_symmetric(n, k);
    }
}

proof fn lemma_binomial_diagonal(n: nat)
    ensures
        binomial(n, n) == 1,
    decreases n,
{
    if n > 0 {
        lemma_binomial_diagonal((n - 1) as nat);
        lemma_binomial_above_row((n - 1) as nat, n);
    }
}

proof fn lemma_binomial_symmetric(n: nat, k: nat)
    requires
        k <= n,
    ensures
        binomial(n, k) == binomial(n, (n - k) as nat),
    decreases n,
{
    if k == 0 {
        lemma_binomial_diagonal(n);
    } else if k == n {
        lemma_binomial_diagonal(n);
    } else {
        lemma_binomial_symmetric((n - 1) as nat, (k - 1) as nat);
        lemma_binomial_symmetric((n - 1) as nat, k);
    }
}

} // verus!
