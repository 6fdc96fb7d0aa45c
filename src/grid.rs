use vstd::prelude::*;
use vstd::arithmetic::div_mod::{
    lemma_fundamental_div_mod, lemma_fundamental_div_mod_converse, lemma_mod_multiples_basic,
};

verus! {

/// The largest number of marks a single fill or generation may produce.
pub const MAX_MARKS: i64 = 1000000;

/// A tick position together with the step size of the tier that produced it.
/// Both are whole numbers of the caller's unit.
#[derive(Clone, Copy, Debug, PartialEq, Eq, Structural)]
pub struct GridMark {
    pub value: i64,
    pub step_size: i64,
}

/// What the caller sees: the finest spacing it wants considered, and the
/// visible range `(min, max)`, all in the caller's unit.
#[derive(Clone, Copy, Debug)]
pub struct GridInput {
    pub base_step_size: i64,
    pub bounds: (i64, i64),
}

/// Why a grid computation could not be carried out.
#[derive(Clone, Copy, Debug, PartialEq, Eq, Structural)]
pub enum GridError {
    /// The lower bound of an interval lies above its upper bound.
    InvertedInterval,
    /// A step size or magnitude is zero (or, for a step, negative).
    InvalidMagnitude,
    /// The base of a power is smaller than two.
    InvalidBase,
    /// More marks would be produced than `MAX_MARKS` allows.
    ResourceLimit,
    /// A step size does not fit in the integer range.
    Overflow,
}

/// The smallest integer `i` with `i * b >= a` (for `b > 0`).
pub open spec fn ceil_div(a: int, b: int) -> int {
    if a % b == 0 {
        a / b
    } else {
        a / b + 1
    }
}

/// The marks of a sequence as `(value, step_size)` pairs.
pub open spec fn marks_view(v: Seq<GridMark>) -> Seq<(int, int)> {
    v.map_values(|m: GridMark| (m.value as int, m.step_size as int))
}

/// How many multiples of `step` the interval fill of `[min, max]` produces.
pub open spec fn fill_count(step: int, min: int, max: int) -> nat {
    let n = ceil_div(max, step) - ceil_div(min, step);
    if n > 0 {
        n as nat
    } else {
        0
    }
}

/// The interval fill: one mark `i * step` for every integer `i` with
/// `ceil(min / step) <= i < ceil(max / step)`, each tagged with `step`.
pub open spec fn fill_spec(step: int, min: int, max: int) -> Seq<(int, int)> {
    Seq::new(
        fill_count(step, min, max),
        |j: int| ((ceil_div(min, step) + j) * step, step),
    )
}

/// `ceil_div(a, b)` is the least multiple index reaching `a`.
pub proof fn lemma_ceil_div_bounds(a: int, b: int)
    requires
        b > 0,
    ensures
        ceil_div(a, b) * b >= a,
        (ceil_div(a, b) - 1) * b < a,
{
    lemma_fundamental_div_mod(a, b);
    let q = a / b;
    assert((q + 1) * b == q * b + b) by (nonlinear_arith);
    assert((q - 1) * b == q * b - b) by (nonlinear_arith);
    assert(q * b == b * q) by (nonlinear_arith);
}

/// An integer `i` reaches `a` in steps of `b` exactly when `i >= ceil_div(a, b)`.
pub proof fn lemma_ceil_div_least(a: int, b: int, i: int)
    requires
        b > 0,
    ensures
        (i * b >= a) <==> (i >= ceil_div(a, b)),
{
    lemma_ceil_div_bounds(a, b);
    let c = ceil_div(a, b);
    if i >= c {
        assert(i * b >= c * b) by (nonlinear_arith)
            requires i >= c, b > 0;
    } else {
        assert(i * b <= (c - 1) * b) by (nonlinear_arith)
            requires i <= c - 1, b > 0;
    }
}

/// `ceil(a / b)` on machine integers.
pub fn ceil_div_exec(a: i64, b: i64) -> (r: i64)
    requires
        b > 0,
    ensures
        r == ceil_div(a as int, b as int),
{
    let a2: i128 = a as i128;
    let b2: i128 = b as i128;
    if a2 >= 0 {
        let q: i128 = a2 / b2;
        let m: i128 = a2 % b2;
        proof {
            lemma_fundamental_div_mod(a2 as int, b2 as int);
            assert(q <= a2) by (nonlinear_arith)
                requires a2 == b2 * q + m, b2 >= 1, m >= 0, a2 >= 0, m < b2;
        }
        if m == 0 {
            q as i64
        } else {
            assert(q < a2) by (nonlinear_arith)
                requires a2 == b2 * q + m, b2 >= 1, m >= 1, m < b2, a2 >= 0;
            (q + 1) as i64
        }
    } else {
        let n: i128 = -a2;
        let q: i128 = n / b2;
        let m: i128 = n % b2;
        proof {
            let ai = a as int;
            let bi = b as int;
            lemma_fundamental_div_mod(n as int, bi);
            assert(0 <= q <= n) by (nonlinear_arith)
                requires n == bi * q + m, bi >= 1, 0 <= m < bi, n > 0;
            if m == 0 {
                assert(ai == (-q) * bi + 0) by (nonlinear_arith)
                    requires n == bi * q + m, m == 0, ai == -n;
                lemma_fundamental_div_mod_converse(ai, bi, -q, 0);
            } else {
                assert(ai == (-q - 1) * bi + (bi - m)) by (nonlinear_arith)
                    requires n == bi * q + m, ai == -n;
                lemma_fundamental_div_mod_converse(ai, bi, -q - 1, bi - m);
            }
        }
        (-q) as i64
    }
}

/// Every multiple of `step_size` from `ceil(min / step_size)` up to, but not
/// including, `ceil(max / step_size)`, each as a mark tagged with `step_size`.
/// The lower bound is reached down to its containing multiple; the upper bound
/// is left out when it is itself a multiple of the step.
pub fn fill_between(step_size: i64, min: i64, max: i64) -> (r: Result<Vec<GridMark>, GridError>)
    ensures
        min > max ==> r == Err::<Vec<GridMark>, GridError>(GridError::InvertedInterval),
        min <= max && step_size <= 0 ==> r == Err::<Vec<GridMark>, GridError>(
            GridError::InvalidMagnitude,
        ),
        step_size > 0 && min <= max && fill_count(step_size as int, min as int, max as int)
            > MAX_MARKS ==> r == Err::<Vec<GridMark>, GridError>(GridError::ResourceLimit),
        step_size > 0 && min <= max && fill_count(step_size as int, min as int, max as int)
            <= MAX_MARKS ==> r is Ok && marks_view(r->Ok_0@) == fill_spec(
            step_size as int,
            min as int,
            max as int,
        ),
{
    if min > max {
        return Err(GridError::InvertedInterval);
    }
    if step_size <= 0 {
        return Err(GridError::InvalidMagnitude);
    }
    let first = ceil_div_exec(min, step_size);
    let last = ceil_div_exec(max, step_size);
    if (last as i128) - (first as i128) > MAX_MARKS as i128 {
        return Err(GridError::ResourceLimit);
    }
    proof {
        lemma_ceil_div_bounds(min as int, step_size as int);
        lemma_ceil_div_bounds(max as int, step_size as int);
        lemma_ceil_div_least(min as int, step_size as int, last as int);
    }
    let mut out: Vec<GridMark> = Vec::new();
    let mut i: i64 = first;
    while i < last
        invariant
            step_size > 0,
            first == ceil_div(min as int, step_size as int),
            last == ceil_div(max as int, step_size as int),
            first * step_size >= min,
            (last - 1) * step_size < max,
            first <= i <= last,
            out@.len() == i - first,
            forall|j: int|
                0 <= j < out@.len() ==> (#[trigger] out@[j]).value == (first + j) * step_size
                    && out@[j].step_size == step_size,
        decreases last - i,
    {
        proof {
            assert(i * step_size >= first * step_size) by (nonlinear_arith)
                requires i >= first, step_size > 0;
            assert(i * step_size <= (last - 1) * step_size) by (nonlinear_arith)
                requires i <= last - 1, step_size > 0;
        }
        let value = i * step_size;
        out.push(GridMark { value, step_size });
        i = i + 1;
    }
    assert(marks_view(out@) =~= fill_spec(step_size as int, min as int, max as int));
    Ok(out)
}

/// Whether `v` is a multiple of `d`.
fn is_multiple(v: i64, d: i64) -> (r: bool)
    requires
        d > 0,
    ensures
        r == (v % d == 0),
{
    let v2: i128 = v as i128;
    let d2: i128 = d as i128;
    if v2 >= 0 {
        v2 % d2 == 0
    } else {
        let n: i128 = -v2;
        let m: i128 = n % d2;
        proof {
            let vi = v as int;
            let di = d as int;
            lemma_fundamental_div_mod(n as int, di);
            let q = n / d2;
            if m == 0 {
                assert(vi == (-q) * di + 0) by (nonlinear_arith)
                    requires n == di * q + m, m == 0, vi == -n;
                lemma_fundamental_div_mod_converse(vi, di, -q, 0);
            } else {
                assert(vi == (-q - 1) * di + (di - m)) by (nonlinear_arith)
                    requires n == di * q + m, vi == -n;
                lemma_fundamental_div_mod_converse(vi, di, -q - 1, di - m);
            }
        }
        m == 0
    }
}

/// The step size of the coarsest tier among `unit`, `10 * unit` and
/// `100 * unit` that has `value` as one of its multiples.
pub open spec fn coarsest_step(unit: int, value: int) -> int {
    if value % (100 * unit) == 0 {
        100 * unit
    } else if value % (10 * unit) == 0 {
        10 * unit
    } else {
        unit
    }
}

/// The merged, deduplicated marks of the three tiers over `[min, max]`: the
/// finest tier's fill, each mark tagged with the coarsest tier through it.
pub open spec fn generate_spec(unit: int, min: int, max: int) -> Seq<(int, int)> {
    Seq::new(
        fill_count(unit, min, max),
        |j: int|
            {
                let v = (ceil_div(min, unit) + j) * unit;
                (v, coarsest_step(unit, v))
            },
    )
}

/// What generating the three tiers over `[min, max]` yields, error or marks.
pub open spec fn generate_outcome(unit: int, min: int, max: int) -> Result<
    Seq<(int, int)>,
    GridError,
> {
    if min > max {
        Err(GridError::InvertedInterval)
    } else if unit <= 0 {
        Err(GridError::InvalidMagnitude)
    } else if fill_count(unit, min, max) > MAX_MARKS {
        Err(GridError::ResourceLimit)
    } else {
        Ok(generate_spec(unit, min, max))
    }
}

/// A result of marks, with the marks as `(value, step_size)` pairs.
pub open spec fn outcome_view(r: Result<Vec<GridMark>, GridError>) -> Result<
    Seq<(int, int)>,
    GridError,
> {
    match r {
        Ok(v) => Ok(marks_view(v@)),
        Err(e) => Err(e),
    }
}

/// Grid marks for three tiers of step sizes, each ten times the one before.
/// Each tier is filled over `bounds`; the marks are merged in ascending order
/// of value, and where tiers share a position only the mark of the coarsest
/// tier is kept. Every mark of a coarser tier is also a mark of the finest,
/// so the result has one mark per multiple of the finest step.
pub fn generate_marks(step_sizes: [i64; 3], bounds: (i64, i64)) -> (r: Result<
    Vec<GridMark>,
    GridError,
>)
    requires
        step_sizes[1] == 10 * step_sizes[0],
        step_sizes[2] == 10 * step_sizes[1],
    ensures
        outcome_view(r) == generate_outcome(
            step_sizes[0] as int,
            bounds.0 as int,
            bounds.1 as int,
        ),
{
    let finest = match fill_between(step_sizes[0], bounds.0, bounds.1) {
        Ok(v) => v,
        Err(e) => {
            return Err(e);
        },
    };
    let ghost fine = fill_spec(step_sizes[0] as int, bounds.0 as int, bounds.1 as int);
    assert(marks_view(finest@) == fine);
    let mut out: Vec<GridMark> = Vec::new();
    let mut j: usize = 0;
    while j < finest.len()
        invariant
            step_sizes[1] == 10 * step_sizes[0],
            step_sizes[2] == 10 * step_sizes[1],
            step_sizes[0] > 0,
            marks_view(finest@) == fine,
            fine == fill_spec(step_sizes[0] as int, bounds.0 as int, bounds.1 as int),
            j <= finest@.len(),
            out@.len() == j,
            forall|k: int|
                0 <= k < j ==> (#[trigger] marks_view(out@)[k]) == generate_spec(
                    step_sizes[0] as int,
                    bounds.0 as int,
                    bounds.1 as int,
                )[k],
        decreases finest.len() - j,
    {
        let value = finest[j].value;
        assert(marks_view(finest@)[j as int] == fine[j as int]);
        let step_size = if is_multiple(value, step_sizes[2]) {
            step_sizes[2]
        } else if is_multiple(value, step_sizes[1]) {
            step_sizes[1]
        } else {
            step_sizes[0]
        };
        let ghost old_out = out@;
        out.push(GridMark { value, step_size });
        proof {
            assert forall|k: int| 0 <= k < j + 1 implies (#[trigger] marks_view(out@)[k])
                == generate_spec(step_sizes[0] as int, bounds.0 as int, bounds.1 as int)[k] by {
                if k < j {
                    assert(marks_view(out@)[k] == marks_view(old_out)[k]);
                } else {
                    assert(fine[k].0 == value);
                    let g = generate_spec(step_sizes[0] as int, bounds.0 as int, bounds.1 as int);
                    assert(g.len() == fine.len());
                    assert(0 <= k < g.len());
                    assert(g[k].0 == fine[k].0);
                    assert(generate_spec(step_sizes[0] as int, bounds.0 as int, bounds.1 as int)[k]
                        == (value as int, coarsest_step(step_sizes[0] as int, value as int)));
                    assert(marks_view(out@)[k] == (value as int, step_size as int));
                }
            }
        }
        j = j + 1;
    }
    assert(marks_view(out@) =~= generate_spec(
        step_sizes[0] as int,
        bounds.0 as int,
        bounds.1 as int,
    ));
    Ok(out)
}

/// The marks of an interval fill are multiples of the step inside `[min, max)`.
pub proof fn lemma_fill_member(step: int, min: int, max: int, j: int)
    requires
        step > 0,
        0 <= j < fill_count(step, min, max),
    ensures
        min <= fill_spec(step, min, max)[j].0 < max,
        fill_spec(step, min, max)[j].0 % step == 0,
{
    let c = ceil_div(min, step);
    lemma_ceil_div_least(min, step, c + j);
    lemma_ceil_div_least(max, step, c + j);
    lemma_mod_multiples_basic(c + j, step);
}

/// Every multiple of the step inside `[min, max)` is a mark of the interval
/// fill, at a position given by its quotient.
pub proof fn lemma_fill_contains(step: int, min: int, max: int, v: int)
    requires
        step > 0,
        v % step == 0,
        min <= v < max,
    ensures
        0 <= v / step - ceil_div(min, step) < fill_count(step, min, max),
        fill_spec(step, min, max)[v / step - ceil_div(min, step)] == (v, step),
{
    lemma_fundamental_div_mod(v, step);
    let q = v / step;
    assert(q * step == v) by (nonlinear_arith)
        requires v == step * q + v % step, v % step == 0;
    lemma_ceil_div_least(min, step, q);
    lemma_ceil_div_least(max, step, q);
}

/// Merging the tiers keeps every mark of every tier: each mark of the fill of
/// `unit`, `10 * unit` or `100 * unit` has a generated mark at the same value,
/// tagged with a step at least as coarse as its own tier's.
pub proof fn lemma_generate_keeps_tier_marks(unit: int, min: int, max: int, tier: int, j: int)
    requires
        unit > 0,
        tier == unit || tier == 10 * unit || tier == 100 * unit,
        0 <= j < fill_count(tier, min, max),
    ensures
        ({
            let v = fill_spec(tier, min, max)[j].0;
            let k = v / unit - ceil_div(min, unit);
            &&& 0 <= k < generate_spec(unit, min, max).len()
            &&& generate_spec(unit, min, max)[k].0 == v
            &&& generate_spec(unit, min, max)[k].1 >= tier
        }),
{
    lemma_fill_member(tier, min, max, j);
    let v = fill_spec(tier, min, max)[j].0;
    lemma_fundamental_div_mod(v, tier);
    let q = v / tier;
    if tier == 10 * unit {
        assert(v == (q * 10) * unit) by (nonlinear_arith)
            requires v == tier * q + v % tier, v % tier == 0, tier == 10 * unit;
    } else if tier == 100 * unit {
        assert(v == (q * 100) * unit) by (nonlinear_arith)
            requires v == tier * q + v % tier, v % tier == 0, tier == 100 * unit;
    } else {
        assert(v == q * unit) by (nonlinear_arith)
            requires v == tier * q + v % tier, v % tier == 0, tier == unit;
    }
    if tier == 10 * unit {
        lemma_mod_multiples_basic(q * 10, unit);
    } else if tier == 100 * unit {
        lemma_mod_multiples_basic(q * 100, unit);
    } else {
        lemma_mod_multiples_basic(q, unit);
    }
    lemma_fill_contains(unit, min, max, v);
}

/// Each generated mark is a mark of the fill of the tier its step names.
pub proof fn lemma_generated_mark_in_own_tier(unit: int, min: int, max: int, k: int)
    requires
        unit > 0,
        0 <= k < generate_spec(unit, min, max).len(),
    ensures
        ({
            let (v, step) = generate_spec(unit, min, max)[k];
            let j = v / step - ceil_div(min, step);
            &&& 0 <= j < fill_count(step, min, max)
            &&& fill_spec(step, min, max)[j] == (v, step)
        }),
{
    lemma_fill_member(unit, min, max, k);
    let (v, step) = generate_spec(unit, min, max)[k];
    assert(fill_spec(unit, min, max)[k].0 == v);
    lemma_fill_contains(step, min, max, v);
}

/// The generated marks ascend strictly by value.
pub proof fn lemma_generated_ascending(unit: int, min: int, max: int, k1: int, k2: int)
    requires
        unit > 0,
        0 <= k1 < k2 < generate_spec(unit, min, max).len(),
    ensures
        generate_spec(unit, min, max)[k1].0 < generate_spec(unit, min, max)[k2].0,
{
    let c = ceil_div(min, unit);
    assert((c + k1) * unit < (c + k2) * unit) by (nonlinear_arith)
        requires k1 < k2, unit > 0;
}

} // verus!
