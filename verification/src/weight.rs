//! The cost model: a pure, saturating, monotone estimate of an
//! operation's weight from its declared size-like parameters.
//!
//! A weight is composed additively from a benchmarked base, one linear
//! term per declared parameter, and the backend's per-read/per-write
//! cost table. All arithmetic clamps at `u64::MAX` instead of wrapping:
//! overestimating a cost is safe for admission control, underestimating
//! is not.

use vstd::prelude::*;

verus! {

/// A non-negative cost value; arithmetic on it saturates at `u64::MAX`.
pub type Weight = u64;

/// Clamp a mathematical value to the representable weight range.
pub open spec fn clamp(x: int) -> int {
    if x > u64::MAX { u64::MAX as int } else { x }
}

/// Saturating addition on weights.
pub fn sat_add(a: Weight, b: Weight) -> (r: Weight)
    ensures
        r == clamp(a + b),
{
    a.saturating_add(b)
}

/// Subtraction floored at zero, the saturating subtraction on weights.
pub open spec fn floor_sub(a: int, b: int) -> int {
    if a >= b {
        a - b
    } else {
        0
    }
}

/// Saturating subtraction on weights (floors at zero).
pub fn sat_sub(a: Weight, b: Weight) -> (r: Weight)
    ensures
        r == floor_sub(a as int, b as int),
{
    a.saturating_sub(b)
}

/// Saturating multiplication on weights.
pub fn sat_mul(a: Weight, b: Weight) -> (r: Weight)
    ensures
        r == clamp(a * b),
{
    match a.checked_mul(b) {
        Some(p) => p,
        None => u64::MAX,
    }
}

/// Clamping one non-negative summand before adding loses nothing:
/// a chain of saturating additions equals the clamped exact sum.
pub proof fn lemma_clamp_add(x: int, y: int)
    requires
        0 <= x,
        0 <= y,
    ensures
        clamp(clamp(x) + y) == clamp(x + y),
{
}

/// Clamping one non-negative factor before multiplying loses nothing:
/// a chain of saturating multiplications equals the clamped exact product.
pub proof fn lemma_clamp_mul(x: int, y: int)
    requires
        0 <= x,
        0 <= y,
    ensures
        clamp(clamp(x) * y) == clamp(x * y),
{
    if x > u64::MAX {
        if y == 0 {
            assert(clamp(x) * y == 0) by (nonlinear_arith)
                requires
                    y == 0,
            ;
            assert(x * y == 0) by (nonlinear_arith)
                requires
                    y == 0,
            ;
        } else {
            assert(clamp(x) * y >= clamp(x)) by (nonlinear_arith)
                requires
                    clamp(x) >= 0,
                    y >= 1,
            ;
            assert(x * y >= x) by (nonlinear_arith)
                requires
                    x >= 0,
                    y >= 1,
            ;
        }
    }
}

/// The backend's unit costs for one storage read and one storage write,
/// injected by the hosting environment and fixed for the lifetime of a
/// composed dispatcher.
#[derive(Clone, Copy, Debug, PartialEq, Eq, Structural)]
pub struct DbCostModel {
    pub read_cost: u64,
    pub write_cost: u64,
}

/// The linear contribution of one declared parameter: a benchmarked
/// coefficient plus backend reads and writes proportional to it.
#[derive(Clone, Copy, Debug, PartialEq, Eq, Structural)]
pub struct CostTerm {
    pub coeff: u64,
    pub reads: u64,
    pub writes: u64,
}

/// The exact (unclamped) cost of one unit of a term's parameter.
pub open spec fn term_rate(db: DbCostModel, t: CostTerm) -> int {
    t.coeff + t.reads * db.read_cost + t.writes * db.write_cost
}

/// The exact (unclamped) cost of the first `n` parameters.
pub open spec fn terms_cost(db: DbCostModel, terms: Seq<CostTerm>, params: Seq<u64>, n: int) -> int
    decreases n,
{
    if n <= 0 {
        0
    } else {
        terms_cost(db, terms, params, n - 1) + term_rate(db, terms[n - 1]) * params[n - 1]
    }
}

pub proof fn lemma_term_rate_nonneg(db: DbCostModel, t: CostTerm)
    ensures
        term_rate(db, t) >= 0,
{
    assert(t.reads * db.read_cost >= 0) by (nonlinear_arith);
    assert(t.writes * db.write_cost >= 0) by (nonlinear_arith);
}

pub proof fn lemma_terms_cost_nonneg(db: DbCostModel, terms: Seq<CostTerm>, params: Seq<u64>, n: int)
    requires
        n <= terms.len(),
        n <= params.len(),
    ensures
        terms_cost(db, terms, params, n) >= 0,
    decreases n,
{
    if n > 0 {
        lemma_terms_cost_nonneg(db, terms, params, n - 1);
        lemma_term_rate_nonneg(db, terms[n - 1]);
        assert(term_rate(db, terms[n - 1]) * params[n - 1] >= 0) by (nonlinear_arith)
            requires
                term_rate(db, terms[n - 1]) >= 0,
                params[n - 1] >= 0,
        ;
    }
}

/// One operation's cost model: a benchmarked base weight, flat backend
/// read/write counts, and one linear term per declared parameter. The
/// coefficients come from an external calibration process; the model
/// only applies them.
#[derive(Clone, Debug)]
pub struct CostModel {
    pub base: u64,
    pub base_reads: u64,
    pub base_writes: u64,
    pub terms: Vec<CostTerm>,
}

impl CostModel {
    /// The exact, unclamped estimate over all declared parameters.
    pub open spec fn exact_estimate(self, db: DbCostModel, params: Seq<u64>) -> int {
        self.base + self.base_reads * db.read_cost + self.base_writes * db.write_cost
            + terms_cost(db, self.terms@, params, self.terms@.len() as int)
    }

    /// The weight this model assigns: the exact estimate, clamped.
    pub open spec fn spec_estimate(self, db: DbCostModel, params: Seq<u64>) -> int {
        clamp(self.exact_estimate(db, params))
    }

    /// Estimate the weight of one run of the operation from its declared
    /// parameters alone. Pure: reads no state, so it can price a call
    /// before the call executes. Saturates instead of overflowing.
    pub fn estimate(&self, db: &DbCostModel, params: &Vec<u64>) -> (w: Weight)
        requires
            params@.len() == self.terms@.len(),
        ensures
            w == self.spec_estimate(*db, params@),
    {
        let flat_reads = sat_mul(self.base_reads, db.read_cost);
        let flat_writes = sat_mul(self.base_writes, db.write_cost);
        let mut acc = sat_add(self.base, sat_add(flat_reads, flat_writes));
        let ghost flat: int = self.base + self.base_reads * db.read_cost
            + self.base_writes * db.write_cost;
        proof {
            assert(self.base_reads * db.read_cost >= 0) by (nonlinear_arith);
            assert(self.base_writes * db.write_cost >= 0) by (nonlinear_arith);
            lemma_clamp_add(self.base_reads * db.read_cost, clamp(
                self.base_writes * db.write_cost,
            ));
            lemma_clamp_add(
                self.base_writes * db.write_cost,
                self.base_reads * db.read_cost,
            );
            lemma_clamp_add(
                self.base_reads * db.read_cost + self.base_writes * db.write_cost,
                self.base as int,
            );
        }
        assert(acc == clamp(flat));
        let mut i: usize = 0;
        while i < params.len()
            invariant
                i <= params@.len(),
                params@.len() == self.terms@.len(),
                flat == self.base + self.base_reads * db.read_cost
                    + self.base_writes * db.write_cost,
                acc == clamp(flat + terms_cost(*db, self.terms@, params@, i as int)),
            decreases params@.len() - i,
        {
            let t = self.terms[i];
            let p = params[i];
            let reads_part = sat_mul(sat_mul(t.reads, p), db.read_cost);
            let writes_part = sat_mul(sat_mul(t.writes, p), db.write_cost);
            let tc = sat_add(sat_mul(t.coeff, p), sat_add(reads_part, writes_part));
            proof {
                lemma_term_contribution(*db, t, p);
            }
            assert(tc == clamp(term_rate(*db, t) * p));
            acc = sat_add(acc, tc);
            proof {
                let s = flat + terms_cost(*db, self.terms@, params@, i as int);
                let c = term_rate(*db, t) * p;
                lemma_terms_cost_nonneg(*db, self.terms@, params@, i as int);
                lemma_term_rate_nonneg(*db, t);
                assert(c >= 0) by (nonlinear_arith)
                    requires
                        term_rate(*db, t) >= 0,
                        p >= 0,
                        c == term_rate(*db, t) * p,
                ;
                lemma_clamp_add(s, clamp(c));
                lemma_clamp_add(c, s);
                assert(acc == clamp(s + c));
                assert(terms_cost(*db, self.terms@, params@, i + 1) == terms_cost(
                    *db,
                    self.terms@,
                    params@,
                    i as int,
                ) + c);
            }
            i = i + 1;
        }
        acc
    }
}

/// The chain of saturating operations on one term equals the clamped
/// exact contribution of that term.
proof fn lemma_term_contribution(db: DbCostModel, t: CostTerm, p: u64)
    ensures
        clamp(
            clamp(t.coeff * p) + clamp(
                clamp(clamp(t.reads * p) * db.read_cost) + clamp(
                    clamp(t.writes * p) * db.write_cost,
                ),
            ),
        ) == clamp(term_rate(db, t) * p),
{
    assert(t.reads * p >= 0) by (nonlinear_arith);
    assert(t.writes * p >= 0) by (nonlinear_arith);
    assert(t.coeff * p >= 0) by (nonlinear_arith);
    lemma_clamp_mul(t.reads * p, db.read_cost as int);
    lemma_clamp_mul(t.writes * p, db.write_cost as int);
    let a = t.reads * p * db.read_cost;
    let b = t.writes * p * db.write_cost;
    assert(t.reads * p * db.read_cost >= 0) by (nonlinear_arith);
    assert(t.writes * p * db.write_cost >= 0) by (nonlinear_arith);
    lemma_clamp_add(a, clamp(b));
    lemma_clamp_add(b, a);
    lemma_clamp_add(t.coeff * p, a + b);
    lemma_clamp_add(a + b, t.coeff * p);
    assert(term_rate(db, t) * p == t.coeff * p + t.reads * p * db.read_cost + t.writes * p
        * db.write_cost) by (nonlinear_arith);
}

/// Monotonicity of the exact per-parameter cost: raising any parameter
/// never lowers the total.
proof fn lemma_terms_cost_monotonic(
    db: DbCostModel,
    terms: Seq<CostTerm>,
    p1: Seq<u64>,
    p2: Seq<u64>,
    n: int,
)
    requires
        n <= terms.len(),
        n <= p1.len(),
        p1.len() == p2.len(),
        forall|i: int| 0 <= i < p1.len() ==> p1[i] <= p2[i],
    ensures
        terms_cost(db, terms, p1, n) <= terms_cost(db, terms, p2, n),
    decreases n,
{
    if n > 0 {
        lemma_terms_cost_monotonic(db, terms, p1, p2, n - 1);
        lemma_term_rate_nonneg(db, terms[n - 1]);
        assert(term_rate(db, terms[n - 1]) * p1[n - 1] <= term_rate(db, terms[n - 1]) * p2[n
            - 1]) by (nonlinear_arith)
            requires
                term_rate(db, terms[n - 1]) >= 0,
                0 <= p1[n - 1] <= p2[n - 1],
        ;
    }
}

/// Weight monotonicity: a componentwise-larger parameter tuple never
/// estimates cheaper. Larger inputs can only cost more, so admission
/// control may safely price by an upper bound on the input sizes.
pub proof fn lemma_estimate_monotonic(db: DbCostModel, m: CostModel, p1: Seq<u64>, p2: Seq<u64>)
    requires
        p1.len() == m.terms@.len(),
        p2.len() == m.terms@.len(),
        forall|i: int| 0 <= i < p1.len() ==> p1[i] <= p2[i],
    ensures
        m.spec_estimate(db, p1) <= m.spec_estimate(db, p2),
{
    lemma_terms_cost_monotonic(db, m.terms@, p1, p2, m.terms@.len() as int);
}

} // verus!
