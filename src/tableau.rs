//! Assembly of a standard-form simplex tableau and the simplex method on it.
use crate::rational::{
    lemma_cancel_self, lemma_div_exact, lemma_div_self, lemma_order_trans,
    lemma_zero_iff, lemma_zero_one, one, zero, ArithmeticError, Rational,
};
use vstd::prelude::*;

verus! {

/// A row: its coefficients and its right-hand side.
pub type RowView = (Seq<Rational>, Rational);

/// A tableau: its constraint rows and its objective row.
pub type TableauView = (Seq<RowView>, RowView);

/// One row of the tableau: a coefficient per column and a right-hand side.
pub struct Constraint {
    pub coefficients: Vec<Rational>,
    pub value: Rational,
}

/// Collects an objective and constraints, adding one slack column per
/// constraint.
pub struct TableauBuilder {
    pub constraints: Vec<Constraint>,
    pub target_function: Constraint,
}

/// A standard-form tableau; the objective row holds the negated prices.
pub struct Tableau {
    pub constraints: Vec<Constraint>,
    pub target_function: Constraint,
}

/// The value of each column at the optimum; the last is the objective value.
pub struct SolvedSimplex {
    pub coefs: Vec<Rational>,
}

/// Why a constraint could not be added.
#[derive(Debug, Clone, Copy, PartialEq, Eq, Structural)]
pub enum BuildError {
    /// The coefficient count does not match the columns built so far.
    InvalidCoefficientCount,
}

/// Why the simplex method stopped without an optimum.
#[derive(Debug, Clone, Copy, PartialEq, Eq, Structural)]
pub enum SimplexError {
    /// No row qualifies for the pivot column: the objective is unbounded.
    Unbounded,
    /// An exact value outgrew 64 bits.
    Overflow,
    /// The pivot budget ran out (the rule can cycle on degenerate problems).
    PivotLimit,
}

impl View for Constraint {
    type V = RowView;

    open spec fn view(&self) -> RowView {
        (self.coefficients@, self.value)
    }
}

impl View for TableauBuilder {
    type V = TableauView;

    open spec fn view(&self) -> TableauView {
        (self.constraints@.map_values(|c: Constraint| c@), self.target_function@)
    }
}

impl View for Tableau {
    type V = TableauView;

    open spec fn view(&self) -> TableauView {
        (self.constraints@.map_values(|c: Constraint| c@), self.target_function@)
    }
}

/// A row of `n` well-formed coefficients and a well-formed value.
pub open spec fn row_wf(r: RowView, n: nat) -> bool {
    &&& r.0.len() == n
    &&& forall|j: int| 0 <= j < n ==> (#[trigger] r.0[j]).wf()
    &&& r.1.wf()
}

/// Every row, the objective included, has the objective's length.
pub open spec fn tableau_wf(t: TableauView) -> bool {
    &&& row_wf(t.1, t.1.0.len())
    &&& forall|i: int| 0 <= i < t.0.len() ==> row_wf(#[trigger] t.0[i], t.1.0.len())
}

/// The tableau that starts from the given prices: negated, with value zero.
pub open spec fn new_view(prices: Seq<u64>) -> TableauView {
    (
        Seq::empty(),
        (Seq::new(prices.len(), |j: int| Rational::from_int(-(prices[j] as int))), zero()),
    )
}

/// A row with one more column holding `c`.
pub open spec fn extend_row(r: RowView, c: Rational) -> RowView {
    (r.0.push(c), r.1)
}

/// The tableau after adding the constraint `coefs · x <= value`.
pub open spec fn add_view(t: TableauView, coefs: Seq<u64>, value: u64) -> TableauView {
    let k = t.0.len();
    let row = (
        Seq::new(
            coefs.len() + k + 1,
            |j: int|
                if j < coefs.len() {
                    Rational::from_int(coefs[j] as int)
                } else if j < coefs.len() + k {
                    zero()
                } else {
                    one()
                },
        ),
        Rational::from_int(value as int),
    );
    (Seq::new(k, |i: int| extend_row(t.0[i], zero())).push(row), extend_row(t.1, zero()))
}

/// The tableau with the column for the objective value appended.
pub open spec fn finish_view(t: TableauView) -> TableauView {
    (Seq::new(t.0.len(), |i: int| extend_row(t.0[i], zero())), extend_row(t.1, one()))
}

/// No coefficient of the objective row is negative.
pub open spec fn is_optimal_view(t: TableauView) -> bool {
    forall|j: int| 0 <= j < t.1.0.len() ==> !(#[trigger] t.1.0[j]).is_neg_spec()
}

/// `col` holds the most negative objective coefficient, the first of equals.
pub open spec fn is_pivot_column(t: TableauView, col: int) -> bool {
    let c = t.1.0;
    &&& 0 <= col < c.len()
    &&& c[col].is_neg_spec()
    &&& forall|j: int| 0 <= j < c.len() ==> c[col].le(#[trigger] c[j])
    &&& forall|j: int| 0 <= j < col ==> c[col].lt(#[trigger] c[j])
}

/// The ratio of a row's value to its entry in `col`.
pub open spec fn ratio(r: RowView, col: int) -> Rational {
    r.1.spec_div(r.0[col])
}

/// A row takes part in the ratio test: non-zero entry, non-negative ratio.
pub open spec fn eligible(t: TableauView, col: int, i: int) -> bool {
    t.0[i].0[col] != zero() && !ratio(t.0[i], col).is_neg_spec()
}

/// `row` wins the minimum-ratio test, the first of equals.
pub open spec fn is_pivot_row(t: TableauView, col: int, row: int) -> bool {
    &&& 0 <= row < t.0.len()
    &&& eligible(t, col, row)
    &&& forall|i: int|
        0 <= i < t.0.len() && #[trigger] eligible(t, col, i) ==> ratio(t.0[row], col).le(
            ratio(t.0[i], col),
        )
    &&& forall|i: int|
        0 <= i < row && #[trigger] eligible(t, col, i) ==> ratio(t.0[row], col).lt(
            ratio(t.0[i], col),
        )
}

/// The row divided by its entry in `col`.
pub open spec fn scale_view(r: RowView, col: int) -> RowView {
    (Seq::new(r.0.len(), |j: int| r.0[j].spec_div(r.0[col])), r.1.spec_div(r.0[col]))
}

/// The row minus its entry in `col` times the pivot row.
pub open spec fn cancel_view(r: RowView, col: int, p: RowView) -> RowView {
    let t = r.0[col];
    if t == zero() {
        r
    } else {
        (
            Seq::new(r.0.len(), |j: int| r.0[j].spec_sub(t.spec_mul(p.0[j]))),
            r.1.spec_sub(t.spec_mul(p.1)),
        )
    }
}

/// The tableau after pivoting on (`row`, `col`).
pub open spec fn pivot_view(t: TableauView, row: int, col: int) -> TableauView {
    let p = scale_view(t.0[row], col);
    (
        Seq::new(
            t.0.len(),
            |i: int|
                if i == row {
                    p
                } else {
                    cancel_view(t.0[i], col, p)
                },
        ),
        cancel_view(t.1, col, p),
    )
}

/// Every division of the row by its entry in `col` fits in 64 bits.
pub open spec fn scale_fits(r: RowView, col: int) -> bool {
    (forall|j: int| 0 <= j < r.0.len() ==> (#[trigger] r.0[j]).div_fits(r.0[col])) && r.1.div_fits(
        r.0[col],
    )
}

/// Every product and difference of the elimination of `col` from the row
/// with the pivot row `p` fits in 64 bits (nothing is done for a zero entry).
pub open spec fn cancel_fits(r: RowView, col: int, p: RowView) -> bool {
    r.0[col] == zero() || (cancel_entries_fit(r, col, p) && entry_cancel_fits(r.1, r.0[col], p.1))
}

/// Every coefficient's product and difference of the elimination fits.
pub open spec fn cancel_entries_fit(r: RowView, col: int, p: RowView) -> bool {
    forall|j: int| 0 <= j < r.0.len() ==> entry_cancel_fits(#[trigger] r.0[j], r.0[col], p.0[j])
}

/// `x - t * pj` is computed within 64 bits.
#[verifier::opaque]
pub open spec fn entry_cancel_fits(x: Rational, t: Rational, pj: Rational) -> bool {
    t.mul_fits(pj) && x.sub_fits(t.spec_mul(pj))
}

/// Some ratio of the ratio test in `col` does not fit in 64 bits.
pub open spec fn ratio_overflows(t: TableauView, col: int) -> bool {
    exists|i: int|
        0 <= i < t.0.len() && (#[trigger] t.0[i]).0[col] != zero() && !t.0[i].1.div_fits(
            t.0[i].0[col],
        )
}

/// Scaling the pivot row or eliminating its column from another row does
/// not fit in 64 bits.
pub open spec fn elimination_overflows(t: TableauView, row: int, col: int) -> bool {
    let p = scale_view(t.0[row], col);
    ||| !scale_fits(t.0[row], col)
    ||| !cancel_fits(t.1, col, p)
    ||| exists|i: int| 0 <= i < t.0.len() && i != row && !cancel_fits(#[trigger] t.0[i], col, p)
}

/// The pivot step from `t` needs a value that does not fit in 64 bits.
pub open spec fn pivot_overflows(t: TableauView) -> bool {
    exists|col: int|
        is_pivot_column(t, col) && (ratio_overflows(t, col) || exists|row: int|
            is_pivot_row(t, col, row) && elimination_overflows(t, row, col))
}

/// One step of the simplex method, carried out within 64 bits.
pub open spec fn step(t: TableauView, u: TableauView) -> bool {
    &&& tableau_wf(t)
    &&& tableau_wf(u)
    &&& !is_optimal_view(t)
    &&& !pivot_overflows(t)
    &&& exists|col: int, row: int|
        is_pivot_column(t, col) && is_pivot_row(t, col, row) && u == pivot_view(t, row, col)
}

/// `u` is reached from `t` in `n` steps.
pub open spec fn reaches(t: TableauView, u: TableauView, n: nat) -> bool
    decreases n,
{
    if n == 0 {
        t == u
    } else {
        exists|m: TableauView| reaches(t, m, (n - 1) as nat) && #[trigger] step(m, u)
    }
}

/// The pivot column has no eligible row.
pub open spec fn is_unbounded_view(t: TableauView) -> bool {
    exists|col: int|
        is_pivot_column(t, col) && forall|i: int| 0 <= i < t.0.len() ==> !#[trigger] eligible(
            t,
            col,
            i,
        )
}

/// All rows, the objective last.
pub open spec fn all_rows(t: TableauView) -> Seq<RowView> {
    t.0.push(t.1)
}

/// How many of the first `k` rows hold one in column `c`.
pub open spec fn count_units(rows: Seq<RowView>, c: int, k: int) -> nat
    decreases k,
{
    if k <= 0 {
        0
    } else {
        count_units(rows, c, k - 1) + if rows[k - 1].0[c] == one() {
            1nat
        } else {
            0nat
        }
    }
}

/// How many of the first `k` rows hold a non-zero value in column `c`.
pub open spec fn count_nonzero(rows: Seq<RowView>, c: int, k: int) -> nat
    decreases k,
{
    if k <= 0 {
        0
    } else {
        count_nonzero(rows, c, k - 1) + if rows[k - 1].0[c] != zero() {
            1nat
        } else {
            0nat
        }
    }
}

/// The last of the first `k` rows that holds one in column `c`, or -1.
pub open spec fn last_unit(rows: Seq<RowView>, c: int, k: int) -> int
    decreases k,
{
    if k <= 0 {
        -1
    } else if rows[k - 1].0[c] == one() {
        k - 1
    } else {
        last_unit(rows, c, k - 1)
    }
}

/// The value of column `c`: the value of its unit row when it is a true
/// identity column, zero otherwise.
pub open spec fn column_value(rows: Seq<RowView>, c: int) -> Rational {
    let k = rows.len() as int;
    if count_units(rows, c, k) == 1 && count_nonzero(rows, c, k) == 1 {
        rows[last_unit(rows, c, k)].1
    } else {
        zero()
    }
}

/// The value of every column of the tableau.
pub open spec fn solution(t: TableauView) -> Seq<Rational> {
    Seq::new(t.1.0.len(), |c: int| column_value(all_rows(t), c))
}

/// `s` is read from an optimal tableau that the simplex method reaches from `t`.
pub open spec fn solves(t: TableauView, s: Seq<Rational>) -> bool {
    exists|n: nat, u: TableauView| reaches(t, u, n) && is_optimal_view(u) && s == solution(u)
}

/// The simplex method reaches from `t` a tableau whose pivot column has no
/// eligible row.
pub open spec fn unbounded_from(t: TableauView) -> bool {
    exists|n: nat, u: TableauView|
        reaches(t, u, n) && !is_optimal_view(u) && is_unbounded_view(u) && !pivot_overflows(u)
}

/// What a run of the simplex method must end in when it reaches `u`: the
/// solution read from `u` when `u` is optimal, `Overflow` when the step from
/// `u` overflows, `Unbounded` when `u` has no pivot row.
pub open spec fn settles(u: TableauView, r: Result<SolvedSimplex, SimplexError>) -> bool {
    &&& is_optimal_view(u) ==> r is Ok && r->Ok_0.coefs@ == solution(u)
    &&& !is_optimal_view(u) && pivot_overflows(u) ==> r == Err::<SolvedSimplex, SimplexError>(
        SimplexError::Overflow,
    )
    &&& !is_optimal_view(u) && is_unbounded_view(u) && !pivot_overflows(u) ==> r == Err::<
        SolvedSimplex,
        SimplexError,
    >(SimplexError::Unbounded)
}

/// After a pivot the pivot column is a unit column: one in the pivot row and
/// zero in every other row, the objective included.
pub proof fn lemma_pivot_unit_column(t: TableauView, row: int, col: int)
    requires
        tableau_wf(t),
        0 <= row < t.0.len(),
        0 <= col < t.1.0.len(),
        t.0[row].0[col] != zero(),
    ensures
        pivot_view(t, row, col).0[row].0[col] == one(),
        forall|i: int|
            0 <= i < t.0.len() && i != row ==> (#[trigger] pivot_view(t, row, col).0[i]).0[col]
                == zero(),
        pivot_view(t, row, col).1.0[col] == zero(),
{
    let n = t.1.0.len();
    assert(row_wf(t.0[row], n));
    lemma_div_self(t.0[row].0[col]);
    let p = scale_view(t.0[row], col);
    assert(p.0[col] == one());
    assert forall|i: int| 0 <= i < t.0.len() && i != row implies (#[trigger] pivot_view(
        t,
        row,
        col,
    ).0[i]).0[col] == zero() by {
        assert(row_wf(t.0[i], n));
        lemma_cancel_self(t.0[i].0[col]);
    }
    lemma_cancel_self(t.1.0[col]);
}

proof fn lemma_reaches_step(t: TableauView, m: TableauView, u: TableauView, n: nat)
    requires
        reaches(t, m, n),
        step(m, u),
    ensures
        reaches(t, u, n + 1),
{
    assert(reaches(t, m, ((n + 1) - 1) as nat));
}

/// A tableau has at most one pivot column.
pub proof fn lemma_pivot_column_unique(t: TableauView, c1: int, c2: int)
    requires
        tableau_wf(t),
        is_pivot_column(t, c1),
        is_pivot_column(t, c2),
    ensures
        c1 == c2,
{
    let c = t.1.0;
    if c1 < c2 {
        lemma_order_trans(c[c2], c[c1], c[c1]);
    } else if c2 < c1 {
        lemma_order_trans(c[c1], c[c2], c[c2]);
    }
}

/// When every ratio fits in 64 bits, a column has at most one pivot row.
pub proof fn lemma_pivot_row_unique(t: TableauView, col: int, r1: int, r2: int)
    requires
        tableau_wf(t),
        0 <= col < t.1.0.len(),
        !ratio_overflows(t, col),
        is_pivot_row(t, col, r1),
        is_pivot_row(t, col, r2),
    ensures
        r1 == r2,
{
    let n = t.1.0.len();
    assert(row_wf(t.0[r1], n));
    assert(row_wf(t.0[r2], n));
    assert(t.0[r1].0[col] != zero());
    assert(t.0[r2].0[col] != zero());
    lemma_zero_iff(t.0[r1].0[col]);
    lemma_zero_iff(t.0[r2].0[col]);
    lemma_div_exact(t.0[r1].1, t.0[r1].0[col]);
    lemma_div_exact(t.0[r2].1, t.0[r2].0[col]);
    let a = ratio(t.0[r1], col);
    let b = ratio(t.0[r2], col);
    if r1 < r2 {
        lemma_order_trans(b, a, a);
    } else if r2 < r1 {
        lemma_order_trans(a, b, b);
    }
}

/// A tableau that steps is neither optimal, nor overflowing, nor unbounded.
pub proof fn lemma_step_facts(t: TableauView, u: TableauView)
    requires
        step(t, u),
    ensures
        !is_optimal_view(t),
        !pivot_overflows(t),
        !is_unbounded_view(t),
{
    let (col, row) = choose|col: int, row: int|
        is_pivot_column(t, col) && is_pivot_row(t, col, row) && u == pivot_view(t, row, col);
    if is_unbounded_view(t) {
        let c2 = choose|c2: int|
            is_pivot_column(t, c2) && forall|i: int|
                0 <= i < t.0.len() ==> !#[trigger] eligible(t, c2, i);
        lemma_pivot_column_unique(t, col, c2);
        assert(eligible(t, col, row));
    }
}

/// The simplex step is deterministic.
pub proof fn lemma_step_functional(t: TableauView, u1: TableauView, u2: TableauView)
    requires
        step(t, u1),
        step(t, u2),
    ensures
        u1 == u2,
{
    let (c1, r1) = choose|col: int, row: int|
        is_pivot_column(t, col) && is_pivot_row(t, col, row) && u1 == pivot_view(t, row, col);
    let (c2, r2) = choose|col: int, row: int|
        is_pivot_column(t, col) && is_pivot_row(t, col, row) && u2 == pivot_view(t, row, col);
    lemma_pivot_column_unique(t, c1, c2);
    assert(!ratio_overflows(t, c1));
    lemma_pivot_row_unique(t, c1, r1, r2);
}

/// A run reaches at most one tableau in a given number of steps.
pub proof fn lemma_reaches_functional(s: TableauView, u1: TableauView, u2: TableauView, n: nat)
    requires
        reaches(s, u1, n),
        reaches(s, u2, n),
    ensures
        u1 == u2,
    decreases n,
{
    if n > 0 {
        let m1 = choose|m: TableauView| reaches(s, m, (n - 1) as nat) && #[trigger] step(m, u1);
        let m2 = choose|m: TableauView| reaches(s, m, (n - 1) as nat) && #[trigger] step(m, u2);
        lemma_reaches_functional(s, m1, m2, (n - 1) as nat);
        lemma_step_functional(m1, u1, u2);
    }
}

/// Every tableau passed before the end of a run takes a step.
proof fn lemma_reaches_prefix(s: TableauView, t: TableauView, n: nat, u: TableauView, m: nat)
    requires
        reaches(s, t, n),
        reaches(s, u, m),
        m < n,
    ensures
        exists|w: TableauView| #[trigger] step(u, w),
    decreases n,
{
    let m1 = choose|x: TableauView| reaches(s, x, (n - 1) as nat) && #[trigger] step(x, t);
    if m == n - 1 {
        lemma_reaches_functional(s, u, m1, m);
        assert(step(u, t));
    } else {
        lemma_reaches_prefix(s, m1, (n - 1) as nat, u, m);
    }
}

/// A run of `k + 1` steps starts with one step.
proof fn lemma_reaches_first(t: TableauView, u: TableauView, k: nat)
    requires
        reaches(t, u, k + 1),
    ensures
        exists|w: TableauView| #[trigger] step(t, w) && reaches(w, u, k),
    decreases k,
{
    let m = choose|x: TableauView| reaches(t, x, k) && #[trigger] step(x, u);
    if k == 0 {
        assert(m == t);
        assert(reaches(u, u, 0));
        assert(step(t, u) && reaches(u, u, k));
    } else {
        lemma_reaches_first(t, m, (k - 1) as nat);
        let w = choose|w: TableauView| #[trigger] step(t, w) && reaches(w, m, (k - 1) as nat);
        assert(reaches(w, u, k));
    }
}

/// Where a tableau `u` reached in `m` steps stands against the tableau `t`
/// reached in `n` steps.
proof fn lemma_compare_runs(start: TableauView, t: TableauView, n: nat, u: TableauView, m: nat)
    requires
        reaches(start, t, n),
        reaches(start, u, m),
        forall|k: nat, x: TableauView|
            #[trigger] reaches(start, x, k) && k >= n ==> reaches(t, x, (k - n) as nat),
    ensures
        m < n ==> exists|w: TableauView| #[trigger] step(u, w),
        m == n ==> u == t,
        m > n ==> exists|w: TableauView| #[trigger] step(t, w),
{
    if m < n {
        lemma_reaches_prefix(start, t, n, u, m);
    } else if m == n {
        lemma_reaches_functional(start, t, u, n);
    } else {
        assert(reaches(t, u, (m - n) as nat));
        lemma_reaches_first(t, u, (m - n - 1) as nat);
    }
}

/// A tableau reached in `m` steps settles the result when the run stopped
/// at `t` after `n` steps, `t` settling it itself, and anything past `t`
/// needing a step from `t`.
proof fn lemma_settles_from(
    start: TableauView,
    t: TableauView,
    n: nat,
    u: TableauView,
    m: nat,
    r: Result<SolvedSimplex, SimplexError>,
)
    requires
        reaches(start, t, n),
        reaches(start, u, m),
        forall|k: nat, x: TableauView|
            #[trigger] reaches(start, x, k) && k >= n ==> reaches(t, x, (k - n) as nat),
        settles(t, r),
        m > n ==> forall|w: TableauView| !#[trigger] step(t, w),
    ensures
        settles(u, r),
{
    lemma_compare_runs(start, t, n, u, m);
    if m < n {
        let w = choose|w: TableauView| #[trigger] step(u, w);
        lemma_step_facts(u, w);
    }
}

impl Constraint {
    /// A copy of the row.
    fn duplicate(&self) -> (r: Constraint)
        ensures
            r@ == self@,
    {
        let mut coefficients: Vec<Rational> = Vec::new();
        for j in 0..self.coefficients.len()
            invariant
                coefficients@ == self.coefficients@.subrange(0, j as int),
        {
            coefficients.push(self.coefficients[j]);
            assert(coefficients@ =~= self.coefficients@.subrange(0, j + 1));
        }
        assert(coefficients@ =~= self.coefficients@);
        Constraint { coefficients, value: self.value }
    }

    /// Divides the row by its entry in `column`.
    fn make_pivot_element_unit(&self, column: usize) -> (r: Result<Constraint, ArithmeticError>)
        requires
            row_wf(self@, self@.0.len()),
            column < self@.0.len(),
            self@.0[column as int] != zero(),
        ensures
            r is Ok <==> scale_fits(self@, column as int),
            r matches Ok(c) ==> c@ == scale_view(self@, column as int) && row_wf(
                c@,
                self@.0.len(),
            ),
    {
        let element = self.coefficients[column];
        proof {
            lemma_zero_iff(element);
        }
        let mut coefficients: Vec<Rational> = Vec::new();
        for j in 0..self.coefficients.len()
            invariant
                row_wf(self@, self@.0.len()),
                element == self@.0[column as int],
                element.wf(),
                element.num() != 0,
                coefficients@.len() == j,
                forall|k: int|
                    0 <= k < j ==> #[trigger] coefficients@[k] == self@.0[k].spec_div(element)
                        && coefficients@[k].wf() && self@.0[k].div_fits(element),
        {
            let c = match self.coefficients[j].div(element) {
                Ok(c) => c,
                Err(e) => {
                    proof {
                        assert(!self@.0[j as int].div_fits(element));
                    }
                    return Err(e);
                },
            };
            coefficients.push(c);
        }
        let value = match self.value.div(element) {
            Ok(v) => v,
            Err(e) => {
                return Err(e);
            },
        };
        let r = Constraint { coefficients, value };
        assert(r@.0 =~= scale_view(self@, column as int).0);
        assert forall|k: int| 0 <= k < self@.0.len() implies (#[trigger] self@.0[k]).div_fits(
            self@.0[column as int],
        ) by {
            assert(coefficients@[k] == self@.0[k].spec_div(element));
        }
        Ok(r)
    }

    /// Subtracts the pivot row, times this row's entry in `column`.
    fn cancel_from_pivot(&self, column: usize, pivot_row: &Constraint) -> (r: Result<
        Constraint,
        ArithmeticError,
    >)
        requires
            row_wf(self@, self@.0.len()),
            row_wf(pivot_row@, self@.0.len()),
            column < self@.0.len(),
        ensures
            r is Ok <==> cancel_fits(self@, column as int, pivot_row@),
            r matches Ok(c) ==> c@ == cancel_view(self@, column as int, pivot_row@) && row_wf(
                c@,
                self@.0.len(),
            ),
    {
        let term = self.coefficients[column];
        if term == Rational::from_u64(0) {
            return Ok(self.duplicate());
        }
        let ghost rv = self@;
        let ghost pv = pivot_row@;
        let mut coefficients: Vec<Rational> = Vec::new();
        for j in 0..self.coefficients.len()
            invariant
                row_wf(self@, self@.0.len()),
                row_wf(pivot_row@, self@.0.len()),
                term == self@.0[column as int],
                term.wf(),
                term != zero(),
                coefficients@.len() == j,
                forall|k: int|
                    0 <= k < j ==> #[trigger] coefficients@[k] == self@.0[k].spec_sub(
                        term.spec_mul(pivot_row@.0[k]),
                    ) && coefficients@[k].wf(),
                rv == self@,
                pv == pivot_row@,
                term == rv.0[column as int],
                forall|k: int|
                    0 <= k < j ==> entry_cancel_fits(#[trigger] rv.0[k], rv.0[column as int], pv.0[k]),
        {
            let m = match term.mul(pivot_row.coefficients[j]) {
                Ok(m) => m,
                Err(e) => {
                    proof {
                        reveal(entry_cancel_fits);
                        assert(!entry_cancel_fits(rv.0[j as int], rv.0[column as int], pv.0[j as int]));
                    }
                    return Err(e);
                },
            };
            let c = match self.coefficients[j].sub(m) {
                Ok(c) => c,
                Err(e) => {
                    proof {
                        reveal(entry_cancel_fits);
                        assert(!entry_cancel_fits(rv.0[j as int], rv.0[column as int], pv.0[j as int]));
                    }
                    return Err(e);
                },
            };
            proof {
                reveal(entry_cancel_fits);
                assert(entry_cancel_fits(rv.0[j as int], rv.0[column as int], pv.0[j as int]));
            }
            coefficients.push(c);
        }
        let m = match term.mul(pivot_row.value) {
            Ok(m) => m,
            Err(e) => {
                proof {
                    reveal(entry_cancel_fits);
                    assert(!entry_cancel_fits(rv.1, rv.0[column as int], pv.1));
                }
                return Err(e);
            },
        };
        let value = match self.value.sub(m) {
            Ok(v) => v,
            Err(e) => {
                proof {
                    reveal(entry_cancel_fits);
                    assert(!entry_cancel_fits(rv.1, rv.0[column as int], pv.1));
                }
                return Err(e);
            },
        };
        proof {
            reveal(entry_cancel_fits);
            assert(entry_cancel_fits(rv.1, rv.0[column as int], pv.1));
            assert(cancel_entries_fit(rv, column as int, pv));
        }
        let r = Constraint { coefficients, value };
        assert(r@.0 =~= cancel_view(self@, column as int, pivot_row@).0);

        Ok(r)
    }
}


/// Appends one more column holding `c` to every row.
fn extend_rows(rows: Vec<Constraint>, c: Rational) -> (r: Vec<Constraint>)
    ensures
        r@.map_values(|x: Constraint| x@) == Seq::new(
            rows@.len(),
            |i: int| extend_row(rows@[i]@, c),
        ),
{
    let mut rows = rows;
    let mut out: Vec<Constraint> = Vec::new();
    let ghost orig = rows@;
    let ghost n = rows@.len();
    while rows.len() > 0
        invariant
            n == orig.len(),
            rows@.len() + out@.len() == n,
            forall|i: int| 0 <= i < rows@.len() ==> #[trigger] rows@[i] == orig[i],
            forall|i: int|
                0 <= i < out@.len() ==> (#[trigger] out@[i])@ == extend_row(orig[n - 1 - i]@, c),
        decreases rows@.len(),
    {
        let mut row = rows.pop().unwrap();
        row.coefficients.push(c);
        out.push(row);
    }
    let mut r: Vec<Constraint> = Vec::new();
    while out.len() > 0
        invariant
            out@.len() + r@.len() == n,
            forall|i: int|
                0 <= i < out@.len() ==> (#[trigger] out@[i])@ == extend_row(orig[n - 1 - i]@, c),
            forall|i: int| 0 <= i < r@.len() ==> (#[trigger] r@[i])@ == extend_row(orig[i]@, c),
        decreases out@.len(),
    {
        let row = out.pop().unwrap();
        r.push(row);
    }
    assert(r@.map_values(|x: Constraint| x@) =~= Seq::new(n, |i: int| extend_row(orig[i]@, c)));
    r
}

impl TableauBuilder {
    /// Starts a tableau whose objective row holds the negated prices and the
    /// value zero.
    pub fn new(target_function: &[u64]) -> (r: TableauBuilder)
        ensures
            r@ == new_view(target_function@),
            tableau_wf(r@),
    {
        proof {
            lemma_zero_one();
        }
        let mut coefficients: Vec<Rational> = Vec::new();
        for j in 0..target_function.len()
            invariant
                coefficients@.len() == j,
                forall|k: int|
                    0 <= k < j ==> #[trigger] coefficients@[k] == Rational::from_int(
                        -(target_function@[k] as int),
                    ) && coefficients@[k].wf(),
        {
            let c = Rational::from_u64(target_function[j]).neg();
            coefficients.push(c);
        }
        let r = TableauBuilder {
            constraints: Vec::new(),
            target_function: Constraint { coefficients, value: Rational::from_u64(0) },
        };
        assert(r@.0 =~= new_view(target_function@).0);
        assert(r@.1.0 =~= new_view(target_function@).1.0);
        r
    }

    /// Adds the constraint `coefficients · x <= value` with its own slack
    /// column. The coefficients must cover the columns built so far but the
    /// slack columns of earlier constraints.
    pub fn add_constraint(self, coefficients: &[u64], value: u64) -> (r: Result<
        TableauBuilder,
        BuildError,
    >)
        requires
            tableau_wf(self@),
        ensures
            r is Err <==> self@.1.0.len() != coefficients@.len() + self@.0.len(),
            r matches Ok(b) ==> b@ == add_view(self@, coefficients@, value) && tableau_wf(b@),
    {
        let tlen = self.target_function.coefficients.len();
        let k = self.constraints.len();
        if coefficients.len() > tlen || tlen - coefficients.len() != k {
            return Err(BuildError::InvalidCoefficientCount);
        }
        proof {
            lemma_zero_one();
        }
        let mut row: Vec<Rational> = Vec::new();
        for j in 0..coefficients.len()
            invariant
                row@.len() == j,
                forall|i: int|
                    0 <= i < j ==> #[trigger] row@[i] == Rational::from_int(
                        coefficients@[i] as int,
                    ) && row@[i].wf(),
        {
            row.push(Rational::from_u64(coefficients[j]));
        }
        for j in 0..k
            invariant
                row@.len() == coefficients@.len() + j,
                forall|i: int|
                    0 <= i < coefficients@.len() ==> #[trigger] row@[i] == Rational::from_int(
                        coefficients@[i] as int,
                    ) && row@[i].wf(),
                forall|i: int|
                    coefficients@.len() <= i < coefficients@.len() + j ==> #[trigger] row@[i]
                        == zero(),
                zero().wf(),
        {
            row.push(Rational::from_u64(0));
        }
        row.push(Rational::from_u64(1));
        let ghost old_view = self@;
        proof {
            let want = add_view(old_view, coefficients@, value);
            assert(old_view.0.len() == k);
            assert(want.0[k as int].0.len() == row@.len());
            assert forall|j: int| 0 <= j < row@.len() implies row@[j] == want.0[k as int].0[j] by {
                if j < coefficients@.len() {
                } else if j < coefficients@.len() + k {
                } else {
                    assert(j == coefficients@.len() + k);
                }
            }
            assert(row@ =~= want.0[k as int].0);
        }
        let TableauBuilder { constraints, target_function } = self;
        let ghost rv = row@;
        let ghost orig = constraints@;
        let mut constraints = extend_rows(constraints, Rational::from_u64(0));
        let ghost ext = constraints@;
        assert(ext.map_values(|x: Constraint| x@).len() == k);
        assert(ext.len() == k);
        assert forall|i: int| 0 <= i < k implies (#[trigger] ext[i])@ == extend_row(
            old_view.0[i],
            zero(),
        ) by {
            assert(ext.map_values(|x: Constraint| x@)[i] == ext[i]@);
            assert(old_view.0[i] == orig[i]@);
        }
        assert(constraints@.map_values(|x: Constraint| x@).len() == k);
        assert(constraints@.len() == k);
        constraints.push(Constraint { coefficients: row, value: Rational::from_u64(value) });
        assert(constraints@[k as int].coefficients@ == rv);
        let mut target_function = target_function;
        target_function.coefficients.push(Rational::from_u64(0));
        let b = TableauBuilder { constraints, target_function };
        proof {
            let want = add_view(old_view, coefficients@, value);
            assert(b.constraints@[k as int]@.0 =~= want.0[k as int].0);
            assert(b@.0[k as int] == want.0[k as int]);
            assert forall|i: int| 0 <= i < k implies b@.0[i] == want.0[i] by {
                assert(b@.0[i] == b.constraints@[i]@);
                assert(b.constraints@[i] == ext[i]);
            }
            assert(b@.0 =~= want.0);
            assert(b@.1.0 =~= want.1.0);
            let n = b@.1.0.len();
            assert forall|i: int| 0 <= i < b@.0.len() implies row_wf(#[trigger] b@.0[i], n) by {
                if i < k {
                    assert(row_wf(old_view.0[i], (n - 1) as nat));
                }
            }
        }
        Ok(b)
    }

    /// Finishes the tableau: a zero column for every constraint and a one in
    /// the objective row, standing for the objective value.
    pub fn get_tableau(self) -> (r: Tableau)
        requires
            tableau_wf(self@),
        ensures
            r@ == finish_view(self@),
            tableau_wf(r@),
    {
        proof {
            lemma_zero_one();
        }
        let ghost old_view = self@;
        let TableauBuilder { constraints, target_function } = self;
        let constraints = extend_rows(constraints, Rational::from_u64(0));
        let mut target_function = target_function;
        target_function.coefficients.push(Rational::from_u64(1));
        let t = Tableau { constraints, target_function };
        proof {
            assert(t@.0 =~= finish_view(old_view).0);
            assert(t@.1.0 =~= finish_view(old_view).1.0);
            let n = t@.1.0.len();
            assert forall|i: int| 0 <= i < t@.0.len() implies row_wf(#[trigger] t@.0[i], n) by {
                assert(row_wf(old_view.0[i], (n - 1) as nat));
            }
        }
        t
    }
}

impl Tableau {
    /// Runs the simplex method to an optimum and reads off the solution.
    /// The run is deterministic: every tableau it reaches in fewer than
    /// `u64::MAX` steps settles the result (see `settles`).
    pub fn apply_simplex(self) -> (r: Result<SolvedSimplex, SimplexError>)
        requires
            tableau_wf(self@),
        ensures
            r matches Ok(s) ==> solves(self@, s.coefs@),
            r == Err::<SolvedSimplex, SimplexError>(SimplexError::Unbounded) ==> unbounded_from(
                self@,
            ),
            r == Err::<SolvedSimplex, SimplexError>(SimplexError::Overflow) ==> exists|
                n: nat,
                u: TableauView,
            | reaches(self@, u, n) && !is_optimal_view(u) && pivot_overflows(u),
            r == Err::<SolvedSimplex, SimplexError>(SimplexError::PivotLimit) ==> exists|
                u: TableauView,
            | reaches(self@, u, u64::MAX as nat) && !is_optimal_view(u),
            forall|n: nat, u: TableauView|
                #[trigger] reaches(self@, u, n) && n < u64::MAX ==> settles(u, r),
    {
        let ghost start = self@;
        let mut t = self;
        let mut budget: u64 = u64::MAX;
        let ghost mut n: nat = 0;
        proof {
            assert forall|k: nat, x: TableauView|
                #[trigger] reaches(start, x, k) && k >= n implies reaches(t@, x, (k - n) as nat) by {
            }
        }
        while !t.is_optimal()
            invariant
                start == self@,
                tableau_wf(t@),
                reaches(start, t@, n),
                n + budget == u64::MAX,
                forall|k: nat, x: TableauView|
                    #[trigger] reaches(start, x, k) && k >= n ==> reaches(t@, x, (k - n) as nat),
            decreases budget,
        {
            if budget == 0 {
                let r = Err(SimplexError::PivotLimit);
                proof {
                    assert forall|m: nat, u: TableauView|
                        #[trigger] reaches(start, u, m) && m < u64::MAX implies settles(u, r) by {
                        lemma_compare_runs(start, t@, n, u, m);
                        let w = choose|w: TableauView| #[trigger] step(u, w);
                        lemma_step_facts(u, w);
                    }
                }
                return r;
            }
            budget = budget - 1;
            let ghost prev = t@;
            t = match t.pivot() {
                Ok(next) => next,
                Err(e) => {
                    let r = Err(e);
                    proof {
                        assert(settles(prev, r));
                        assert forall|m: nat, u: TableauView|
                            #[trigger] reaches(start, u, m) && m < u64::MAX implies settles(u, r) by {
                            assert forall|w: TableauView| !#[trigger] step(prev, w) by {
                                if step(prev, w) {
                                    lemma_step_facts(prev, w);
                                }
                            }
                            lemma_settles_from(start, prev, n, u, m, r);
                        }
                        assert(e == SimplexError::Unbounded ==> unbounded_from(start));
                    }
                    return r;
                },
            };
            proof {
                lemma_reaches_step(start, prev, t@, n);
                assert forall|k: nat, x: TableauView|
                    #[trigger] reaches(start, x, k) && k >= n + 1 implies reaches(
                    t@,
                    x,
                    (k - (n + 1)) as nat,
                ) by {
                    assert(reaches(prev, x, (k - n) as nat));
                    lemma_reaches_first(prev, x, (k - n - 1) as nat);
                    let w = choose|w: TableauView|
                        #[trigger] step(prev, w) && reaches(w, x, (k - n - 1) as nat);
                    lemma_step_functional(prev, w, t@);
                }
                n = n + 1;
            }
        }
        let s = t.into_solved();
        let r = Ok(s);
        proof {
            assert(reaches(start, t@, n) && is_optimal_view(t@) && s.coefs@ == solution(t@));
            assert(settles(t@, r));
            assert forall|m: nat, u: TableauView|
                #[trigger] reaches(start, u, m) && m < u64::MAX implies settles(u, r) by {
                assert forall|w: TableauView| !#[trigger] step(t@, w) by {
                    if step(t@, w) {
                        lemma_step_facts(t@, w);
                    }
                }
                lemma_settles_from(start, t@, n, u, m, r);
            }
        }
        r
    }

    /// One pivot: choose the column and the row, then eliminate.
    fn pivot(self) -> (r: Result<Tableau, SimplexError>)
        requires
            tableau_wf(self@),
            !is_optimal_view(self@),
        ensures
            r is Ok <==> !pivot_overflows(self@) && !is_unbounded_view(self@),
            r matches Ok(t) ==> step(self@, t@) && tableau_wf(t@),
            r == Err::<Tableau, SimplexError>(SimplexError::Unbounded) <==> is_unbounded_view(
                self@,
            ) && !pivot_overflows(self@),
            r == Err::<Tableau, SimplexError>(SimplexError::Overflow) <==> pivot_overflows(self@),
    {
        let ghost v = self@;
        let ghost n = v.1.0.len();
        let column = self.find_pivot_column();
        let ghost col = column as int;
        proof {
            assert forall|c2: int| is_pivot_column(v, c2) implies c2 == col by {
                lemma_pivot_column_unique(v, col, c2);
            }
        }
        let row = match self.find_pivot_row(column) {
            Ok(Some(row)) => row,
            Ok(None) => {
                proof {
                    assert(is_unbounded_view(v));
                    assert forall|c2: int, r2: int| !(is_pivot_column(v, c2) && is_pivot_row(v, c2, r2)) by {
                        if is_pivot_column(v, c2) && is_pivot_row(v, c2, r2) {
                            assert(eligible(v, col, r2));
                        }
                    }
                }
                return Err(SimplexError::Unbounded);
            },
            Err(_) => {
                proof {
                    assert(pivot_overflows(v));
                }
                return Err(SimplexError::Overflow);
            },
        };
        proof {
            assert(row_wf(v.0[row as int], n));
            assert(self.constraints@[row as int]@ == v.0[row as int]);
            assert forall|r2: int| is_pivot_row(v, col, r2) implies r2 == row by {
                lemma_pivot_row_unique(v, col, row as int, r2);
            }
            if is_unbounded_view(v) {
                let c2 = choose|c2: int|
                    is_pivot_column(v, c2) && forall|i: int|
                        0 <= i < v.0.len() ==> !#[trigger] eligible(v, c2, i);
                assert(eligible(v, col, row as int));
            }
        }
        let pivot_row = match self.constraints[row].make_pivot_element_unit(column) {
            Ok(p) => p,
            Err(_) => {
                proof {
                    assert(elimination_overflows(v, row as int, col));
                    assert(pivot_overflows(v));
                }
                return Err(SimplexError::Overflow);
            },
        };
        let mut constraints: Vec<Constraint> = Vec::new();
        for i in 0..self.constraints.len()
            invariant
                v == self@,
                n == v.1.0.len(),
                tableau_wf(v),
                column < n,
                col == column,
                row < v.0.len(),
                is_pivot_column(v, col),
                is_pivot_row(v, col, row as int),
                pivot_row@ == scale_view(v.0[row as int], column as int),
                scale_fits(v.0[row as int], col),
                row_wf(pivot_row@, n),
                constraints@.len() == i,
                forall|k: int|
                    0 <= k < i ==> (#[trigger] constraints@[k])@ == pivot_view(
                        v,
                        row as int,
                        column as int,
                    ).0[k] && row_wf(constraints@[k]@, n),
                forall|k: int|
                    0 <= k < i && k != row ==> cancel_fits(#[trigger] v.0[k], col, pivot_row@),
        {
            proof {
                assert(row_wf(v.0[i as int], n));
                assert(self.constraints@[i as int]@ == v.0[i as int]);
            }
            if i == row {
                constraints.push(pivot_row.duplicate());
            } else {
                let c = match self.constraints[i].cancel_from_pivot(column, &pivot_row) {
                    Ok(c) => c,
                    Err(_) => {
                        proof {
                            assert(elimination_overflows(v, row as int, col));
                            assert(pivot_overflows(v));
                        }
                        return Err(SimplexError::Overflow);
                    },
                };
                constraints.push(c);
            }
        }
        let target_function = match self.target_function.cancel_from_pivot(column, &pivot_row) {
            Ok(c) => c,
            Err(_) => {
                proof {
                    assert(elimination_overflows(v, row as int, col));
                    assert(pivot_overflows(v));
                }
                return Err(SimplexError::Overflow);
            },
        };
        let t = Tableau { constraints, target_function };
        proof {
            let want = pivot_view(v, row as int, column as int);
            assert forall|k: int| 0 <= k < t@.0.len() implies t@.0[k] == want.0[k] by {
                assert(t@.0[k] == t.constraints@[k]@);
            }
            assert(t@.0 =~= want.0);
            assert(t@ == want);
            assert(!elimination_overflows(v, row as int, col));
            assert(!ratio_overflows(v, col));
            assert(!pivot_overflows(v));
        }
        Ok(t)
    }

    /// Every objective coefficient is non-negative.
    fn is_optimal(&self) -> (r: bool)
        ensures
            r == is_optimal_view(self@),
    {
        let c = &self.target_function.coefficients;
        for j in 0..c.len()
            invariant
                c@ == self@.1.0,
                forall|k: int| 0 <= k < j ==> !(#[trigger] c@[k]).is_neg_spec(),
        {
            if c[j].is_neg() {
                return false;
            }
        }
        true
    }

    /// The column of the most negative objective coefficient, the first of
    /// equals.
    fn find_pivot_column(&self) -> (r: usize)
        requires
            tableau_wf(self@),
            !is_optimal_view(self@),
        ensures
            is_pivot_column(self@, r as int),
    {
        let c = &self.target_function.coefficients;
        let ghost n = c@.len();
        proof {
            lemma_zero_one();
        }
        let mut best: usize = 0;
        let mut found = false;
        let mut acc = Rational::from_u64(0);
        for i in 0..c.len()
            invariant
                c@ == self@.1.0,
                n == c@.len(),
                row_wf(self@.1, n),
                acc.wf(),
                zero().wf(),
                found ==> best < i && acc == c@[best as int] && acc.is_neg_spec(),
                found ==> forall|k: int| 0 <= k < best ==> acc.lt(#[trigger] c@[k]),
                !found ==> acc == zero(),
                forall|k: int| 0 <= k < i ==> acc.le(#[trigger] c@[k]),
        {
            proof {
                assert(c@[i as int].wf());
            }
            if let core::cmp::Ordering::Less = c[i].compare(&acc) {
                proof {
                    assert(c@[i as int].lt(acc));
                    lemma_order_trans(c@[i as int], acc, zero());
                    lemma_order_trans(acc, zero(), zero());
                    assert forall|k: int| 0 <= k < i implies c@[i as int].lt(#[trigger] c@[k]) by {
                        assert(c@[k].wf());
                        lemma_order_trans(c@[i as int], acc, c@[k]);
                    }
                }
                best = i;
                acc = c[i];
                found = true;
            } else {
                proof {
                    assert(!c@[i as int].lt(acc));
                    lemma_order_trans(c@[i as int], acc, zero());
                    lemma_order_trans(acc, c@[i as int], zero());
                }
            }
        }
        proof {
            if !found {
                let j = choose|j: int| 0 <= j < n && (#[trigger] c@[j]).is_neg_spec();
                assert(c@[j].wf());
                lemma_order_trans(c@[j], zero(), zero());
                lemma_order_trans(zero(), c@[j], zero());
                assert(acc.le(c@[j]));
                assert(false);
            }
        }
        best
    }

    /// The row that wins the minimum-ratio test in `column`, if any.
    fn find_pivot_row(&self, column: usize) -> (r: Result<Option<usize>, ArithmeticError>)
        requires
            tableau_wf(self@),
            column < self@.1.0.len(),
        ensures
            r matches Ok(Some(row)) ==> is_pivot_row(self@, column as int, row as int),
            r matches Ok(None) ==> forall|i: int|
                0 <= i < self@.0.len() ==> !#[trigger] eligible(self@, column as int, i),
            r is Err <==> ratio_overflows(self@, column as int),
    {
        let ghost v = self@;
        let ghost n = v.1.0.len();
        let ghost col = column as int;
        proof {
            lemma_zero_one();
        }
        let mut best: Option<usize> = None;
        let mut best_ratio = Rational::from_u64(0);
        for i in 0..self.constraints.len()
            invariant
                v == self@,
                n == v.1.0.len(),
                tableau_wf(v),
                column < n,
                col == column,
                forall|k: int| 0 <= k < i && v.0[k].0[col] != zero() ==> (#[trigger] ratio(v.0[k], col)).wf(),
                forall|k: int|
                    0 <= k < i && (#[trigger] v.0[k]).0[col] != zero() ==> v.0[k].1.div_fits(
                        v.0[k].0[col],
                    ),
                best matches Some(b) ==> b < i && eligible(v, col, b as int) && best_ratio == ratio(
                    v.0[b as int],
                    col,
                ) && best_ratio.wf(),
                best matches Some(b) ==> forall|k: int|
                    0 <= k < i && #[trigger] eligible(v, col, k) ==> best_ratio.le(
                        ratio(v.0[k], col),
                    ),
                best matches Some(b) ==> forall|k: int|
                    0 <= k < b && #[trigger] eligible(v, col, k) ==> best_ratio.lt(
                        ratio(v.0[k], col),
                    ),
                best is None ==> forall|k: int| 0 <= k < i ==> !#[trigger] eligible(v, col, k),
        {
            proof {
                assert(row_wf(v.0[i as int], n));
                assert(self.constraints@[i as int]@ == v.0[i as int]);
            }
            let c = self.constraints[i].coefficients[column];
            if c != Rational::from_u64(0) {
                proof {
                    lemma_zero_iff(c);
                }
                let q = match self.constraints[i].value.div(c) {
                    Ok(q) => q,
                    Err(e) => {
                        proof {
                            assert(!v.0[i as int].1.div_fits(v.0[i as int].0[col]));
                            assert(ratio_overflows(v, col));
                        }
                        return Err(e);
                    },
                };
                if !q.is_neg() {
                    proof {
                        assert(eligible(v, col, i as int));
                    }
                    match best {
                        None => {
                            best = Some(i);
                            best_ratio = q;
                            proof {
                                lemma_order_trans(q, q, q);
                            }
                        },
                        Some(b) => {
                            if let core::cmp::Ordering::Less = q.compare(&best_ratio) {
                                proof {
                                    assert forall|k: int|
                                        0 <= k < i && #[trigger] eligible(v, col, k) implies q.lt(
                                        ratio(v.0[k], col),
                                    ) by {
                                        lemma_order_trans(q, best_ratio, ratio(v.0[k], col));
                                    }
                                    lemma_order_trans(q, q, q);
                                }
                                best = Some(i);
                                best_ratio = q;
                            } else {
                                proof {
                                    lemma_order_trans(q, best_ratio, q);
                                }
                            }
                        },
                    }
                }
            }
        }
        Ok(best)
    }

    /// Reads the value of every column: a column that holds one in exactly
    /// one row and no other non-zero entry takes that row's value, every
    /// other column is zero. The last column is the objective value.
    fn into_solved(self) -> (r: SolvedSimplex)
        requires
            tableau_wf(self@),
        ensures
            r.coefs@ == solution(self@),
    {
        proof {
            lemma_zero_one();
        }
        let ghost v = self@;
        let ghost rows = all_rows(v);
        let Tableau { mut constraints, target_function } = self;
        constraints.push(target_function);
        let m = constraints.len();
        let len = constraints[m - 1].coefficients.len();
        let zero_value = Rational::from_u64(0);
        let one_value = Rational::from_u64(1);
        let mut coefs: Vec<Rational> = Vec::new();
        proof {
            assert forall|k: int| 0 <= k < m implies (#[trigger] constraints@[k])@ == rows[k] by {
                if k < m - 1 {
                    assert(v.0[k] == constraints@[k]@);
                }
            }
        }
        for c in 0..len
            invariant
                m == rows.len(),
                len == v.1.0.len(),
                m == constraints@.len(),
                tableau_wf(v),
                rows == all_rows(v),
                zero_value == zero(),
                one_value == one(),
                forall|k: int| 0 <= k < m ==> (#[trigger] constraints@[k])@ == rows[k],
                coefs@.len() == c,
                forall|k: int| 0 <= k < c ==> #[trigger] coefs@[k] == column_value(rows, k),
        {
            let mut units: usize = 0;
            let mut nonzero: usize = 0;
            let mut unit_row: usize = 0;
            for j in 0..m
                invariant
                    m == rows.len(),
                    len == v.1.0.len(),
                    c < len,
                    m == constraints@.len(),
                    tableau_wf(v),
                    rows == all_rows(v),
                    zero_value == zero(),
                    one_value == one(),
                    forall|k: int| 0 <= k < m ==> (#[trigger] constraints@[k])@ == rows[k],
                    units == count_units(rows, c as int, j as int),
                    nonzero == count_nonzero(rows, c as int, j as int),
                    units <= j,
                    nonzero <= j,
                    units > 0 ==> unit_row < j,
                    last_unit(rows, c as int, j as int) == if units == 0 {
                        -1
                    } else {
                        unit_row as int
                    },
            {
                proof {
                    assert(constraints@[j as int]@ == rows[j as int]);
                    if j < m - 1 {
                        assert(row_wf(v.0[j as int], len as nat));
                    }
                    assert(rows[j as int].0.len() == len);
                }
                let x = constraints[j].coefficients[c];
                if x == one_value {
                    units = units + 1;
                    unit_row = j;
                }
                if x != zero_value {
                    nonzero = nonzero + 1;
                }
            }
            proof {
                assert(column_value(rows, c as int) == if units == 1 && nonzero == 1 {
                    rows[unit_row as int].1
                } else {
                    zero()
                });
            }
            if units == 1 && nonzero == 1 {
                proof {
                    assert(constraints@[unit_row as int]@ == rows[unit_row as int]);
                }
                coefs.push(constraints[unit_row].value);
            } else {
                coefs.push(zero_value);
            }
        }
        let r = SolvedSimplex { coefs };
        assert(r.coefs@ =~= solution(v));
        r
    }
}

impl SolvedSimplex {
    /// The value of column `idx` at the optimum.
    pub fn get_coef(&self, idx: usize) -> (r: Rational)
        requires
            idx < self.coefs@.len(),
        ensures
            r == self.coefs@[idx as int],
    {
        self.coefs[idx]
    }

    /// The optimal objective value.
    pub fn get_max(&self) -> (r: Rational)
        requires
            self.coefs@.len() > 0,
        ensures
            r == self.coefs@.last(),
    {
        self.coefs[self.coefs.len() - 1]
    }
}

} // verus!
