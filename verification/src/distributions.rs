//! Degree distributions and the sampler that draws from them.
//!
//! Probabilities are fixed-point numbers: `UNIT` stands for probability one.
//! A draw is a uniform number below `UNIT`, and the degree it selects is the
//! first whose cumulative probability lies above the draw.

use rand::{Rng, StdRng};
use vstd::prelude::*;

verus! {

/// The fixed-point number that stands for probability one.
pub const UNIT: u64 = 0x10_0000_0000_0000;

/// `rand::StdRng`, the generator that a sampler draws from. Nothing is known
/// of its state.
#[verifier::external_type_specification]
#[verifier::external_body]
pub struct ExStdRng(rand::StdRng);

/// `std::io::Error`, the error with which seeding a generator fails. It is
/// handed on as it is.
#[verifier::external_type_specification]
#[verifier::external_body]
pub struct ExIoError(std::io::Error);

/// Calls `rand::StdRng::new`, which seeds a generator from the operating
/// system and fails where no entropy can be had. Nothing is claimed of the
/// outcome.
#[verifier::external_body]
fn seeded_rng() -> (result: Result<StdRng, std::io::Error>) {
    StdRng::new()
}

/// Calls `rand::Rng::next_u64` on the generator. Nothing is claimed of the
/// number that comes back.
#[verifier::external_body]
fn next_u64(rng: &mut StdRng) -> (number: u64) {
    rng.next_u64()
}

/// Calls `rand::Rng::gen_range`, which returns a number from `low` up to,
/// but not including, `high`, and panics unless `low < high`.
#[verifier::external_body]
fn gen_range(rng: &mut StdRng, low: usize, high: usize) -> (number: usize)
    requires
        low < high,
    ensures
        low <= number < high,
{
    rng.gen_range(low, high)
}

/// A probability for each degree from one up to a limit.
pub trait ProbabilityDensityFunction {
    /// The probability of degree `point` among the degrees up to `limit`, in
    /// units of `1 / UNIT`.
    fn density(&self, point: u32, limit: u32) -> (weight: u64)
        requires
            1 <= point <= limit,
    ;
}

/// The Ideal Soliton density: `1 / limit` for degree one, and
/// `1 / (d * (d - 1))` for every degree `d` above.
pub open spec fn ideal_soliton(point: int, limit: int) -> int {
    if point == 1 {
        UNIT as int / limit
    } else {
        UNIT as int / (point * (point - 1))
    }
}

/// The Ideal Soliton distribution.
#[derive(Debug, Clone, Copy)]
pub struct IdealSolitonDistribution;

impl ProbabilityDensityFunction for IdealSolitonDistribution {
    /// The Ideal Soliton density, rounded down to a multiple of `1 / UNIT`.
    fn density(&self, point: u32, limit: u32) -> (weight: u64)
        ensures
            weight == ideal_soliton(point as int, limit as int),
    {
        if point == 1 {
            UNIT / (limit as u64)
        } else {
            let wide = point as u64;
            assert(wide * (wide - 1) <= 0xffff_ffff * 0xffff_fffe) by (nonlinear_arith)
                requires
                    2 <= wide <= 0xffff_ffff,
            ;
            assert(wide * (wide - 1) >= 2) by (nonlinear_arith)
                requires
                    2 <= wide,
            ;
            UNIT / (wide * (wide - 1))
        }
    }
}

/// The cumulative probability of the degrees up to `degree`, capped at one:
/// no draw reaches one, so the cap changes no selection.
pub open spec fn cumulative(weights: Seq<u64>, degree: int) -> int
    decreases degree,
{
    if degree <= 0 {
        0
    } else {
        let sum = cumulative(weights, degree - 1) + weights[degree - 1];
        if sum > UNIT {
            UNIT as int
        } else {
            sum
        }
    }
}

/// The table of a sampler over `weights`: the entry at `i` is the cumulative
/// probability of the degrees up to `i + 1`.
pub open spec fn table_of(weights: Seq<u64>) -> Seq<u64> {
    Seq::new(weights.len(), |i: int| cumulative(weights, i + 1) as u64)
}

/// `degree` is the degree that `selector` selects from `table`: the least
/// whose cumulative probability lies above the selector, and the last degree
/// where none does.
pub open spec fn selects(table: Seq<u64>, selector: u64, degree: int) -> bool {
    &&& 1 <= degree <= table.len()
    &&& forall|d: int| 1 <= d < degree ==> selector >= #[trigger] table[d - 1]
    &&& selector < table[degree - 1] || degree == table.len()
}

/// `weights` holds, for each degree up to `limit`, a probability that
/// `density_function` gives for it.
pub open spec fn answers<D: ProbabilityDensityFunction>(
    density_function: &D,
    limit: u32,
    weights: Seq<u64>,
) -> bool {
    &&& weights.len() == limit
    &&& forall|i: int|
        0 <= i < limit ==> call_ensures(
            D::density,
            (density_function, (i + 1) as u32, limit),
            #[trigger] weights[i],
        )
}

/// Cumulative probabilities lie between zero and one and never fall.
pub proof fn lemma_cumulative_bounds(weights: Seq<u64>, degree: int)
    ensures
        0 <= cumulative(weights, degree) <= UNIT,
        cumulative(weights, degree - 1) <= cumulative(weights, degree),
    decreases degree,
{
    if degree > 0 {
        lemma_cumulative_bounds(weights, degree - 1);
    }
}

/// A selector selects one degree only.
pub proof fn lemma_selects_unique(table: Seq<u64>, selector: u64, first: int, second: int)
    requires
        selects(table, selector, first),
        selects(table, selector, second),
    ensures
        first == second,
{
    if first < second {
        assert(selector >= table[first - 1]);
    } else if second < first {
        assert(selector >= table[second - 1]);
    }
}

/// A sampler of degrees: a cumulative table over the degrees from one up to
/// a limit, and a random number generator.
#[derive(Debug)]
pub struct Distribution {
    limit: u32,
    rng: StdRng,
    cumulative_probability_table: Vec<u64>,
}

impl Distribution {
    /// The cumulative table: the entry at `i` belongs to degree `i + 1`.
    pub closed spec fn table(&self) -> Seq<u64> {
        self.cumulative_probability_table@
    }

    /// The largest degree, in ghost code.
    pub closed spec fn spec_limit(&self) -> u32 {
        self.limit
    }

    /// The invariant: the table has an entry for each degree, and there is a
    /// degree.
    pub closed spec fn well_formed(&self) -> bool {
        self.limit >= 1 && self.cumulative_probability_table@.len() == self.limit
    }

    /// The table has one entry for each degree.
    pub proof fn lemma_table_len(&self)
        requires
            self.well_formed(),
        ensures
            self.table().len() == self.limit(),
            self.limit() >= 1,
    {
    }

    /// The largest degree that the sampler draws.
    #[verifier::when_used_as_spec(spec_limit)]
    pub fn limit(&self) -> (limit: u32)
        ensures
            limit == self.limit(),
    {
        self.limit
    }

    /// The sampler over the given probabilities, one for each degree from one
    /// up, that draws from `rng`.
    pub fn from_weights(weights: Vec<u64>, rng: StdRng) -> (sampler: Distribution)
        requires
            1 <= weights@.len() <= u32::MAX,
        ensures
            sampler.well_formed(),
            sampler.limit() == weights@.len(),
            sampler.table() == table_of(weights@),
    {
        let mut table: Vec<u64> = Vec::new();
        let mut sum: u64 = 0;
        let mut i: usize = 0;
        while i < weights.len()
            invariant
                i <= weights.len(),
                sum == cumulative(weights@, i as int),
                sum <= UNIT,
                table@.len() == i,
                forall|k: int| 0 <= k < i ==> table@[k] == cumulative(weights@, k + 1),
            decreases weights.len() - i,
        {
            let weight = weights[i];
            sum = if weight > UNIT - sum {
                UNIT
            } else {
                sum + weight
            };
            table.push(sum);
            i += 1;
        }
        assert(table@ =~= table_of(weights@));
        Distribution {
            limit: weights.len() as u32,
            rng,
            cumulative_probability_table: table,
        }
    }

    /// The sampler over the degrees up to `limit` with the probabilities
    /// that `density_function` gives, drawing from `rng`: its table is the
    /// cumulative table of the answers of `density_function`.
    pub fn with_rng<D: ProbabilityDensityFunction>(
        density_function: &D,
        limit: u32,
        rng: StdRng,
    ) -> (sampler: Distribution)
        requires
            limit >= 1,
        ensures
            sampler.well_formed(),
            sampler.limit() == limit,
            exists|weights: Seq<u64>|
                answers(density_function, limit, weights) && sampler.table() == table_of(weights),
    {
        let mut weights: Vec<u64> = Vec::new();
        let mut point: u32 = 0;
        while point < limit
            invariant
                point <= limit,
                weights@.len() == point,
                forall|i: int|
                    0 <= i < point ==> call_ensures(
                        D::density,
                        (density_function, (i + 1) as u32, limit),
                        #[trigger] weights@[i],
                    ),
            decreases limit - point,
        {
            point += 1;
            let weight = density_function.density(point, limit);
            weights.push(weight);
        }
        assert(answers(density_function, limit, weights@));
        Distribution::from_weights(weights, rng)
    }

    /// The sampler over the degrees up to `limit` with the probabilities
    /// that `density_function` gives, with a freshly seeded generator. It
    /// fails where seeding does.
    pub fn new<D: ProbabilityDensityFunction>(density_function: &D, limit: u32) -> (result: Result<
        Distribution,
        std::io::Error,
    >)
        requires
            limit >= 1,
        ensures
            result matches Ok(sampler) ==> {
                &&& sampler.well_formed()
                &&& sampler.limit() == limit
                &&& exists|weights: Seq<u64>|
                    answers(density_function, limit, weights) && sampler.table() == table_of(
                        weights,
                    )
            },
    {
        match seeded_rng() {
            Ok(rng) => Ok(Distribution::with_rng(density_function, limit, rng)),
            Err(error) => Err(error),
        }
    }

    /// The degree that `selector` selects: the least degree whose cumulative
    /// probability lies above it, and the largest degree where none does.
    pub fn degree_for(&self, selector: u64) -> (degree: u32)
        requires
            self.well_formed(),
        ensures
            selects(self.table(), selector, degree as int),
    {
        let mut i: usize = 0;
        while i < self.cumulative_probability_table.len()
            invariant
                self.well_formed(),
                i <= self.cumulative_probability_table@.len(),
                forall|d: int| 1 <= d <= i ==> selector >= #[trigger] self.table()[d - 1],
            decreases self.cumulative_probability_table.len() - i,
        {
            if selector < self.cumulative_probability_table[i] {
                return (i + 1) as u32;
            }
            i += 1;
        }
        self.limit
    }

    /// Draws a degree.
    pub fn query(&mut self) -> (degree: u32)
        requires
            old(self).well_formed(),
        ensures
            final(self).well_formed(),
            final(self).limit() == old(self).limit(),
            final(self).table() == old(self).table(),
            1 <= degree <= old(self).limit(),
            exists|selector: u64| selector < UNIT && selects(old(self).table(), selector, degree as int),
    {
        let raw = next_u64(&mut self.rng);
        let selector = raw & 0xf_ffff_ffff_ffff;
        assert(selector < UNIT) by (bit_vector)
            requires
                selector == raw & 0xf_ffff_ffff_ffff,
        ;
        self.degree_for(selector)
    }

    /// Draws a number from `start` up to, but not including, `end`.
    pub fn query_interior_rng_usize(&mut self, start: usize, end: usize) -> (number: usize)
        requires
            old(self).well_formed(),
            start < end,
        ensures
            final(self).well_formed(),
            final(self).limit() == old(self).limit(),
            final(self).table() == old(self).table(),
            start <= number < end,
    {
        gen_range(&mut self.rng, start, end)
    }
}

} // verus!
