use vstd::prelude::*;
use crate::grid::{
    GridError, GridInput, GridMark, generate_marks, generate_outcome, outcome_view,
};
use crate::power::{abs, ceil_log, lemma_power_positive, next_power, next_power_spec};

verus! {

/// The base whose powers grid spacings are rounded up to.
pub const LOG_BASE: i64 = 10;

/// The finest grid spacing for a requested spacing `base_step_size`: the
/// next power of ten at or above its magnitude.
pub open spec fn smallest_visible_unit(base_step_size: int) -> int {
    next_power_spec(abs(base_step_size), LOG_BASE as int)
}

/// A linear axis transform: data coordinates map linearly onto normalized
/// plot coordinates, optionally mirrored when `invert` is set.
pub struct LinearAxisTransform {
    invert: bool,
}

impl LinearAxisTransform {
    /// Whether this transform mirrors the axis.
    pub closed spec fn is_inverted_spec(&self) -> bool {
        self.invert
    }

    /// The sign applied to the normalized coordinate: `-1` when inverted, else `1`.
    pub open spec fn sign_spec(&self) -> int {
        if self.is_inverted_spec() {
            -1
        } else {
            1
        }
    }

    pub fn new(invert: bool) -> (r: Self)
        ensures
            r.is_inverted_spec() == invert,
    {
        LinearAxisTransform { invert }
    }

    pub fn inverted() -> (r: Self)
        ensures
            r.is_inverted_spec(),
    {
        Self::new(true)
    }

    pub fn normal() -> (r: Self)
        ensures
            !r.is_inverted_spec(),
    {
        Self::new(false)
    }

    pub fn is_inverted(&self) -> (r: bool)
        ensures
            r == self.is_inverted_spec(),
    {
        self.invert
    }

    pub fn sign(&self) -> (r: i64)
        ensures
            r == self.sign_spec(),
    {
        if self.invert {
            -1
        } else {
            1
        }
    }

    /// Grid marks over the visible range: the requested spacing is rounded up
    /// to the next power of ten, three tiers of step sizes (that unit, ten and a
    /// hundred times it) are generated and merged. A zero spacing yields no
    /// marks.
    pub fn grid_marks(&self, input: &GridInput) -> (r: Result<Vec<GridMark>, GridError>)
        ensures
            input.base_step_size == 0 ==> r is Ok && r->Ok_0@.len() == 0,
            input.base_step_size != 0 && input.bounds.0 > input.bounds.1 ==> r == Err::<
                Vec<GridMark>,
                GridError,
            >(GridError::InvertedInterval),
            input.base_step_size != 0 && input.bounds.0 <= input.bounds.1 && 100
                * smallest_visible_unit(input.base_step_size as int) > i64::MAX ==> r == Err::<
                Vec<GridMark>,
                GridError,
            >(GridError::Overflow),
            input.base_step_size != 0 && input.bounds.0 <= input.bounds.1 && 100
                * smallest_visible_unit(input.base_step_size as int) <= i64::MAX ==> outcome_view(r) == generate_outcome(
                smallest_visible_unit(input.base_step_size as int),
                input.bounds.0 as int,
                input.bounds.1 as int,
            ),
    {
        if input.base_step_size == 0 {
            return Ok(Vec::new());
        }
        if input.bounds.0 > input.bounds.1 {
            return Err(GridError::InvertedInterval);
        }
        let unit = match next_power(input.base_step_size, LOG_BASE) {
            Ok(u) => u,
            Err(e) => {
                return Err(e);
            },
        };
        proof {
            lemma_power_positive(
                LOG_BASE as int,
                ceil_log(abs(input.base_step_size as int), LOG_BASE as int),
            );
        }
        let step_sizes = match tier_step_sizes(unit) {
            Ok(s) => s,
            Err(e) => {
                return Err(e);
            },
        };
        generate_marks(step_sizes, input.bounds)
    }
}

/// The three tiers of step sizes built on the finest spacing `unit`: `unit`,
/// ten times it and a hundred times it, finest first.
pub fn tier_step_sizes(unit: i64) -> (r: Result<[i64; 3], GridError>)
    requires
        unit > 0,
    ensures
        100 * unit > i64::MAX ==> r == Err::<[i64; 3], GridError>(GridError::Overflow),
        100 * unit <= i64::MAX ==> r is Ok && r->Ok_0[0] == unit && r->Ok_0[1] == 10 * unit
            && r->Ok_0[2] == 100 * unit,
{
    assert(LOG_BASE == 10);
    if unit > i64::MAX / (LOG_BASE * LOG_BASE) {
        return Err(GridError::Overflow);
    }
    let tier: i64 = unit * LOG_BASE;
    Ok([unit, tier, tier * LOG_BASE])
}

/// Mirroring an axis negates the sign of every normalized coordinate: the
/// inverted transform's sign is the negation of the normal transform's sign.
pub proof fn lemma_inverted_sign_negates_normal(normal: LinearAxisTransform, inverted: LinearAxisTransform)
    requires
        !normal.is_inverted_spec(),
        inverted.is_inverted_spec(),
    ensures
        inverted.sign_spec() == -normal.sign_spec(),
{
}

} // verus!
