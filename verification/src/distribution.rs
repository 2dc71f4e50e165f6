//! Degree distributions of a fountain code: how many source blocks each
//! droplet combines.
//!
//! Probabilities are kept as the bit patterns of double-precision numbers. As
//! long as the numbers are not negative, their bit patterns are ordered as the
//! numbers are, so that looking up a degree takes integers only. What a
//! pattern stands for in arithmetic is left to the caller, who draws the
//! random numbers as well.

use vstd::prelude::*;

verus! {

/// The pattern of one.
pub const ONE: u64 = 0x3FF0_0000_0000_0000;

/// The pattern of infinity, the last of the patterns that are ordered.
pub const INFINITY: u64 = 0x7FF0_0000_0000_0000;

/// `x`, moved into the range from one to `k`.
pub open spec fn clamped(x: int, k: int) -> int {
    if x < 1 {
        1
    } else if x > k {
        k
    } else {
        x
    }
}

/// Moves `x` into the range from one to `k`.
fn clamp_degree(x: u64, k: usize) -> (degree: usize)
    requires
        k >= 1,
    ensures
        degree == clamped(x as int, k as int),
{
    if x < 1 {
        1
    } else if x > k as u64 {
        k
    } else {
        x as usize
    }
}

/// A distribution of degrees, given what was drawn for it.
pub trait DegreeDistribution {
    /// Whether a degree can be made of `draw`.
    spec fn accepts(&self, draw: u64) -> bool;

    /// Whether `degree` is a degree for `draw`.
    spec fn gives(&self, draw: u64, degree: int) -> bool;

    /// The greatest degree that occurs.
    spec fn max_degree(&self) -> int;

    /// The degree for a draw.
    fn sample_degree(&self, draw: u64) -> (degree: usize)
        requires
            self.accepts(draw),
        ensures
            self.gives(draw, degree as int),
            1 <= degree <= self.max_degree(),
    ;
}

/// Whether the probabilities of a table, but for the last, are numbers and do
/// not fall.
pub open spec fn is_ordered(cdf: Seq<u64>) -> bool {
    &&& forall|i: int| 0 < i < cdf.len() - 1 ==> #[trigger] cdf[i] <= INFINITY
    &&& forall|i: int, j: int| 0 < i <= j < cdf.len() - 1 ==> cdf[i] <= cdf[j]
}

/// The table with the given running sums: zero in front, and exactly one in
/// place of the last sum.
pub open spec fn closed_table(sums: Seq<u64>) -> Seq<u64> {
    seq![0u64] + sums.drop_last() + seq![ONE]
}

/// Whether the uniform number `u` picks the degree `degree`: that is the least
/// degree with a probability, of it or less, that `u` does not exceed.
pub open spec fn picks(cdf: Seq<u64>, u: u64, degree: int) -> bool {
    &&& 1 <= degree < cdf.len()
    &&& u <= cdf[degree]
    &&& forall|i: int| 1 <= i < degree ==> #[trigger] cdf[i] < u
}

/// Whether degrees can be looked up in a table.
fn check_ordered(cdf: &Vec<u64>) -> (b: bool)
    requires
        cdf@.len() >= 2,
    ensures
        b == is_ordered(cdf@),
{
    let k = cdf.len() - 1;
    for d in 1..k
        invariant
            k == cdf@.len() - 1,
            forall|i: int| 0 < i < d ==> #[trigger] cdf@[i] <= INFINITY,
            forall|i: int, j: int| 0 < i <= j < d ==> cdf@[i] <= cdf@[j],
    {
        if cdf[d] > INFINITY || (d > 1 && cdf[d] < cdf[d - 1]) {
            return false;
        }
    }
    true
}

/// Cumulative probabilities of the degrees from zero on.
pub struct DegreeTable {
    cdf: Vec<u64>,
    ordered: bool,
}

impl View for DegreeTable {
    type V = Seq<u64>;

    closed spec fn view(&self) -> Seq<u64> {
        self.cdf@
    }
}

impl DegreeTable {
    #[verifier::type_invariant]
    spec fn inv(self) -> bool {
        &&& is_closed(self.cdf@)
        &&& self.ordered == is_ordered(self.cdf@)
    }

    /// The table with the given running sums, for the degrees from one on.
    pub fn new(sums: Vec<u64>) -> (table: Self)
        requires
            sums@.len() > 0,
        ensures
            table@ == closed_table(sums@),
            table@.len() == sums@.len() + 1,
            table@[0] == 0,
            forall|d: int| 1 <= d < sums@.len() ==> #[trigger] table@[d] == sums@[d - 1],
            table@[sums@.len() as int] == ONE,
    {
        let k = sums.len();
        let mut cdf: Vec<u64> = Vec::new();
        cdf.push(0);
        for d in 1..k
            invariant
                k == sums@.len(),
                cdf@ == seq![0u64] + sums@.take(d - 1),
        {
            cdf.push(sums[d - 1]);
            assert(sums@.take(d as int) =~= sums@.take(d - 1).push(sums@[d - 1]));
        }
        cdf.push(ONE);
        proof {
            assert(sums@.take(k - 1) =~= sums@.drop_last());
            assert(cdf@ =~= closed_table(sums@));
        }
        let ordered = check_ordered(&cdf);
        DegreeTable { cdf, ordered }
    }

    /// Whether degrees can be looked up in the table.
    pub fn is_ordered(&self) -> (b: bool)
        ensures
            b == is_ordered(self@),
    {
        proof {
            use_type_invariant(self);
        }
        self.ordered
    }

    /// The probabilities.
    pub fn entries(&self) -> (cdf: &Vec<u64>)
        ensures
            cdf@ == self@,
            is_closed(cdf@),
    {
        proof {
            use_type_invariant(self);
        }
        &self.cdf
    }

    /// The degree that the uniform number `u` picks.
    pub fn pick(&self, u: u64) -> (degree: usize)
        requires
            is_ordered(self@),
            u < ONE,
        ensures
            picks(self@, u, degree as int),
    {
        proof {
            use_type_invariant(self);
        }
        // The degree is among `low` to `high`.
        let mut low: usize = 1;
        let mut high = self.cdf.len() - 1;
        while low < high
            invariant
                is_ordered(self@),
                1 <= low <= high < self@.len(),
                u <= self@[high as int],
                forall|i: int| 1 <= i < low ==> #[trigger] self@[i] < u,
            decreases high - low,
        {
            let mid = low + (high - low) / 2;
            if self.cdf[mid] < u {
                low = mid + 1;
            } else {
                high = mid;
            }
        }
        low
    }
}

/// Whether a table is one that degrees are looked up in: it goes from zero to
/// one, over one degree at least.
pub open spec fn is_closed(cdf: Seq<u64>) -> bool {
    cdf.len() >= 2 && cdf[0] == 0 && cdf.last() == ONE
}

/// A table goes from zero, at degree zero, to one, at the greatest degree.
pub proof fn law_table_goes_from_zero_to_one(sums: Seq<u64>)
    requires
        sums.len() > 0,
    ensures
        closed_table(sums).len() == sums.len() + 1,
        is_closed(closed_table(sums)),
        closed_table(sums)[0] == 0,
        closed_table(sums)[sums.len() as int] == 0x3FF0_0000_0000_0000,
{
}

/// Between its ends a table holds the running sums: entry `d` is the sum for
/// the degree `d`.
pub proof fn law_table_holds_the_sums(sums: Seq<u64>, d: int)
    requires
        1 <= d < sums.len(),
    ensures
        closed_table(sums)[d] == sums[d - 1],
{
}

/// Which degree a uniform number picks, in terms of the running sums: the least
/// one whose sum it does not exceed, and the last one where it exceeds all
/// the others.
pub proof fn law_pick_in_terms_of_the_sums(sums: Seq<u64>, u: u64, degree: int)
    requires
        sums.len() > 0,
        u < 0x3FF0_0000_0000_0000,
    ensures
        picks(closed_table(sums), u, degree) <==> {
            &&& 1 <= degree <= sums.len()
            &&& degree == sums.len() || u <= sums[degree - 1]
            &&& forall|i: int| 0 <= i < degree - 1 ==> #[trigger] sums[i] < u
        },
{
    let t = closed_table(sums);
    law_table_goes_from_zero_to_one(sums);
    assert forall|d: int| 1 <= d < sums.len() implies #[trigger] t[d] == sums[d - 1] by {
        law_table_holds_the_sums(sums, d);
    }
    if picks(t, u, degree) {
        assert forall|i: int| 0 <= i < degree - 1 implies #[trigger] sums[i] < u by {
            assert(t[i + 1] < u);
        }
    }
}

/// Each degree has its share: the numbers above the entry before it, up to its
/// own.
pub proof fn law_each_degree_has_its_share(cdf: Seq<u64>, u: u64, degree: int)
    requires
        1 <= degree < cdf.len(),
        forall|i: int, j: int| 0 <= i <= j < degree ==> cdf[i] <= cdf[j],
        cdf[degree - 1] < u <= cdf[degree],
    ensures
        picks(cdf, u, degree),
{
    assert forall|i: int| 1 <= i < degree implies #[trigger] cdf[i] < u by {
        assert(cdf[i] <= cdf[degree - 1]);
    }
}

/// Degrees can be looked up where each entry, from the first degree to the last
/// but one, is a number and no less than the one before it.
pub proof fn law_ordered_tables_do_not_fall(cdf: Seq<u64>)
    ensures
        is_ordered(cdf) <==> {
            &&& forall|i: int| 1 <= i < cdf.len() - 1 ==> #[trigger] cdf[i] <= 0x7FF0_0000_0000_0000
            &&& forall|i: int| 1 <= i < cdf.len() - 2 ==> #[trigger] rises_at(cdf, i)
        },
{
    if is_ordered(cdf) {
        assert forall|i: int| 1 <= i < cdf.len() - 2 implies #[trigger] rises_at(cdf, i) by {
            assert(cdf[i] <= cdf[i + 1]);
        }
    }
    if forall|i: int| 1 <= i < cdf.len() - 2 ==> #[trigger] rises_at(cdf, i) {
        assert forall|i: int, j: int| 0 < i <= j < cdf.len() - 1 implies cdf[i] <= cdf[j] by {
            lemma_rises(cdf, i, j);
        }
    }
}

/// Whether an entry is no greater than the next.
pub open spec fn rises_at(cdf: Seq<u64>, i: int) -> bool {
    cdf[i] <= cdf[i + 1]
}

proof fn lemma_rises(cdf: Seq<u64>, i: int, j: int)
    requires
        forall|i: int| 1 <= i < cdf.len() - 2 ==> #[trigger] rises_at(cdf, i),
        0 < i <= j < cdf.len() - 1,
    ensures
        cdf[i] <= cdf[j],
    decreases j - i,
{
    if i < j {
        lemma_rises(cdf, i, j - 1);
        assert(rises_at(cdf, j - 1));
    }
}

/// A greater uniform number picks no lesser degree.
pub proof fn law_pick_rises_with_the_draw(cdf: Seq<u64>, u: u64, v: u64, a: int, b: int)
    requires
        u < v,
        picks(cdf, u, a),
        picks(cdf, v, b),
    ensures
        a <= b,
{
}

/// A uniform number picks one degree.
pub proof fn law_pick_is_unique(cdf: Seq<u64>, u: u64, a: int, b: int)
    requires
        picks(cdf, u, a),
        picks(cdf, u, b),
    ensures
        a == b,
{
}

/// What the ideal soliton distribution gives a degree, up to a factor.
#[derive(Clone, Copy, Debug, PartialEq, Eq, Structural)]
pub enum IdealTerm {
    /// One over the number of source blocks.
    First,
    /// One over the degree and the degree less one.
    Later,
}

/// What the robust soliton distribution adds to that.
#[derive(Clone, Copy, Debug, PartialEq, Eq, Structural)]
pub enum RobustTerm {
    /// The size of the ripple over the degree and the number of source blocks.
    Ramp,
    /// The spike.
    Spike,
    /// Nothing.
    Nothing,
}

/// What the ideal soliton distribution gives a degree.
pub fn ideal_term(degree: usize) -> (term: IdealTerm)
    ensures
        term == (if degree == 1 {
            IdealTerm::First
        } else {
            IdealTerm::Later
        }),
{
    if degree == 1 {
        IdealTerm::First
    } else {
        IdealTerm::Later
    }
}

/// What the robust soliton distribution adds for a degree, with the spike at
/// the degree `spike`; at zero there is no spike.
pub fn robust_term(degree: usize, spike: usize) -> (term: RobustTerm)
    ensures
        term == (if spike == 0 || degree > spike {
            RobustTerm::Nothing
        } else if degree == spike {
            RobustTerm::Spike
        } else {
            RobustTerm::Ramp
        }),
{
    if spike == 0 {
        RobustTerm::Nothing
    } else if degree < spike {
        RobustTerm::Ramp
    } else if degree == spike {
        RobustTerm::Spike
    } else {
        RobustTerm::Nothing
    }
}

/// The Poisson distribution, cut off at `k`.
pub struct PoissonDist {
    /// Number of source blocks.
    pub k: usize,
    /// Pattern of the rate.
    pub lambda: u64,
}

impl DegreeDistribution for PoissonDist {
    open spec fn accepts(&self, draw: u64) -> bool {
        self.k >= 1
    }

    open spec fn gives(&self, draw: u64, degree: int) -> bool {
        degree == clamped(draw as int, self.k as int)
    }

    open spec fn max_degree(&self) -> int {
        self.k as int
    }

    /// The degree for a number drawn from the Poisson distribution.
    fn sample_degree(&self, draw: u64) -> (degree: usize)
        ensures
            draw < 1 ==> degree == 1,
            1 <= draw <= self.k ==> degree == draw,
            self.k < draw ==> degree == self.k,
    {
        clamp_degree(draw, self.k)
    }
}

/// The geometric distribution, from one on and cut off at `k`.
pub struct GeometricDist {
    /// Number of source blocks.
    pub k: usize,
    /// Pattern of the probability of success.
    pub p: u64,
}

impl DegreeDistribution for GeometricDist {
    open spec fn accepts(&self, draw: u64) -> bool {
        self.k >= 1 && draw < u64::MAX
    }

    open spec fn gives(&self, draw: u64, degree: int) -> bool {
        degree == clamped(draw + 1, self.k as int)
    }

    open spec fn max_degree(&self) -> int {
        self.k as int
    }

    /// The degree for a number of failures before the first success.
    fn sample_degree(&self, draw: u64) -> (degree: usize)
        ensures
            draw < self.k ==> degree == draw + 1,
            self.k <= draw ==> degree == self.k,
    {
        clamp_degree(draw + 1, self.k)
    }
}

/// The binomial distribution, cut off at `k`.
pub struct BinomialDist {
    /// Number of source blocks.
    pub k: usize,
    /// Number of trials.
    pub n: u64,
    /// Pattern of the probability of success.
    pub p: u64,
}

impl DegreeDistribution for BinomialDist {
    open spec fn accepts(&self, draw: u64) -> bool {
        self.k >= 1
    }

    open spec fn gives(&self, draw: u64, degree: int) -> bool {
        degree == clamped(draw as int, self.k as int)
    }

    open spec fn max_degree(&self) -> int {
        self.k as int
    }

    /// The degree for a number of successes.
    fn sample_degree(&self, draw: u64) -> (degree: usize)
        ensures
            draw < 1 ==> degree == 1,
            1 <= draw <= self.k ==> degree == draw,
            self.k < draw ==> degree == self.k,
    {
        clamp_degree(draw, self.k)
    }
}

/// The ideal soliton distribution.
pub struct IdealSoliton {
    /// Cumulative probabilities of the degrees.
    pub table: DegreeTable,
    /// Number of source blocks.
    pub k: usize,
}

impl IdealSoliton {
    /// The distribution over `k` source blocks with the given running sums of
    /// probabilities.
    pub fn new(k: usize, sums: Vec<u64>) -> (dist: Self)
        requires
            k > 0,
            sums@.len() == k,
        ensures
            dist.k == k,
            dist.table@ == closed_table(sums@),
    {
        IdealSoliton { table: DegreeTable::new(sums), k }
    }
}

impl DegreeDistribution for IdealSoliton {
    open spec fn accepts(&self, draw: u64) -> bool {
        self.k >= 1 && draw < ONE && is_ordered(self.table@)
    }

    open spec fn gives(&self, draw: u64, degree: int) -> bool {
        exists|d: int| #[trigger]
            picks(self.table@, draw, d) && degree == clamped(d, self.k as int)
    }

    open spec fn max_degree(&self) -> int {
        self.k as int
    }

    /// The degree for a uniform number.
    fn sample_degree(&self, draw: u64) -> (degree: usize)
        ensures
            self.table@.len() == self.k + 1 ==> {
                &&& draw <= self.table@[degree as int]
                &&& forall|i: int| 1 <= i < degree ==> #[trigger] self.table@[i] < draw
            },
    {
        let d = self.table.pick(draw);
        clamp_degree(d as u64, self.k)
    }
}

/// The robust soliton distribution: the ideal one with a spike that keeps
/// droplets of degree one at hand while they are decoded.
pub struct RobustSoliton {
    /// Pattern of the factor that scales the spike.
    pub c: u64,
    /// Pattern of the bound on the probability that decoding fails.
    pub delta: u64,
    /// Cumulative probabilities of the degrees.
    pub table: DegreeTable,
    /// Number of source blocks that the table was made for.
    pub k: usize,
}

impl RobustSoliton {
    /// Whether the table covers the source blocks.
    pub open spec fn wf(&self) -> bool {
        self.k > 0 && self.table@.len() == self.k + 1
    }

    /// Whether there is a distribution with these parameters: there is a
    /// source block, the factor is above zero, and the bound is strictly
    /// between zero and one.
    pub open spec fn has_parameters(k: usize, c: u64, delta: u64) -> bool {
        k > 0 && 0 < c <= INFINITY && 0 < delta < ONE
    }

    /// Checks the parameters of a distribution.
    pub fn accepts_parameters(k: usize, c: u64, delta: u64) -> (b: bool)
        ensures
            b == Self::has_parameters(k, c, delta),
    {
        k > 0 && 0 < c && c <= INFINITY && 0 < delta && delta < ONE
    }

    /// The distribution over `k` source blocks with the given running sums of
    /// probabilities.
    pub fn new(k: usize, c: u64, delta: u64, sums: Vec<u64>) -> (dist: Self)
        requires
            Self::has_parameters(k, c, delta),
            sums@.len() == k,
        ensures
            dist.wf(),
            dist.k == k,
            dist.c == c,
            dist.delta == delta,
            dist.table@ == closed_table(sums@),
    {
        RobustSoliton { c, delta, table: DegreeTable::new(sums), k }
    }

    /// Makes the distribution one over `k` source blocks, with the given
    /// running sums of probabilities. Nothing changes, and no sums are looked
    /// at, where it already is one over that many.
    pub fn rebuild(&mut self, k: usize, sums: Vec<u64>)
        requires
            old(self).wf(),
            k > 0,
            old(self).k != k ==> sums@.len() == k,
        ensures
            final(self).wf(),
            old(self).k == k ==> *final(self) == *old(self),
            old(self).k != k ==> {
                &&& final(self).k == k
                &&& final(self).c == old(self).c
                &&& final(self).delta == old(self).delta
                &&& final(self).table@ == closed_table(sums@)
            },
    {
        if self.k == k {
            return;
        }
        self.table = DegreeTable::new(sums);
        self.k = k;
    }

    /// The number of source blocks that the table was made for.
    pub fn k(&self) -> (k: usize)
        ensures
            k == self.k,
    {
        self.k
    }
}

impl DegreeDistribution for RobustSoliton {
    open spec fn accepts(&self, draw: u64) -> bool {
        self.wf() && draw < ONE && is_ordered(self.table@)
    }

    open spec fn gives(&self, draw: u64, degree: int) -> bool {
        picks(self.table@, draw, degree)
    }

    open spec fn max_degree(&self) -> int {
        self.k as int
    }

    /// The degree for a uniform number.
    fn sample_degree(&self, draw: u64) -> (degree: usize)
        ensures
            self.table@.len() == self.k + 1 ==> {
                &&& draw <= self.table@[degree as int]
                &&& forall|i: int| 1 <= i < degree ==> #[trigger] self.table@[i] < draw
            },
    {
        let d = self.table.pick(draw);
        clamp_degree(d as u64, self.k)
    }
}

/// One of the distributions.
pub enum AnyDistribution {
    /// The robust soliton distribution.
    RobustSoliton(RobustSoliton),
    /// The ideal soliton distribution.
    IdealSoliton(IdealSoliton),
    /// The Poisson distribution.
    Poisson(PoissonDist),
    /// The geometric distribution.
    Geometric(GeometricDist),
    /// The binomial distribution.
    Binomial(BinomialDist),
}

/// Pattern of two, the rate of the Poisson distribution of an epoch.
pub const EPOCH_LAMBDA: u64 = 0x4000_0000_0000_0000;

/// Pattern of a tenth, the probability of the geometric distribution of an
/// epoch.
pub const EPOCH_GEOMETRIC_P: u64 = 0x3FB9_9999_9999_999A;

/// Pattern of a half, the probability of the binomial distribution of an
/// epoch.
pub const EPOCH_BINOMIAL_P: u64 = 0x3FE0_0000_0000_0000;

/// The kinds of distributions.
#[derive(Clone, Copy, Debug, PartialEq, Eq, Structural)]
pub enum DistType {
    /// The robust soliton distribution.
    RobustSoliton,
    /// The ideal soliton distribution.
    IdealSoliton,
    /// The Poisson distribution.
    Poisson,
    /// The geometric distribution.
    Geometric,
    /// The binomial distribution.
    Binomial,
}

impl DistType {
    /// Whether a distribution of this kind looks its degrees up in a table.
    pub open spec fn spec_has_table(self) -> bool {
        self is RobustSoliton || self is IdealSoliton
    }

    /// Whether a distribution of this kind looks its degrees up in a table.
    #[verifier::when_used_as_spec(spec_has_table)]
    pub fn has_table(self) -> (b: bool)
        ensures
            b == self.has_table(),
    {
        match self {
            DistType::RobustSoliton | DistType::IdealSoliton => true,
            _ => false,
        }
    }
}

impl AnyDistribution {
    /// The distribution of the given kind for an epoch of `k` source blocks.
    ///
    /// The sums are running sums of probabilities, for a kind with a table.
    /// The factor and the bound are those of the robust soliton distribution.
    pub fn for_epoch(kind: DistType, k: usize, c: u64, delta: u64, sums: Vec<u64>) -> (dist: Self)
        requires
            k > 0,
            kind is RobustSoliton ==> RobustSoliton::has_parameters(k, c, delta),
            kind.has_table() ==> sums@.len() == k,
        ensures
            match kind {
                DistType::RobustSoliton => dist matches AnyDistribution::RobustSoliton(d) && {
                    &&& d.wf()
                    &&& d.k == k
                    &&& d.c == c
                    &&& d.delta == delta
                    &&& d.table@ == closed_table(sums@)
                },
                DistType::IdealSoliton => dist matches AnyDistribution::IdealSoliton(d) && {
                    &&& d.k == k
                    &&& d.table@ == closed_table(sums@)
                },
                DistType::Poisson => dist == AnyDistribution::Poisson(
                    (PoissonDist { k, lambda: EPOCH_LAMBDA }),
                ),
                DistType::Geometric => dist == AnyDistribution::Geometric(
                    (GeometricDist { k, p: EPOCH_GEOMETRIC_P }),
                ),
                DistType::Binomial => dist == AnyDistribution::Binomial(
                    (BinomialDist { k, n: (k / 2) as u64, p: EPOCH_BINOMIAL_P }),
                ),
            },
    {
        match kind {
            DistType::RobustSoliton => AnyDistribution::RobustSoliton(
                RobustSoliton::new(k, c, delta, sums),
            ),
            DistType::IdealSoliton => AnyDistribution::IdealSoliton(IdealSoliton::new(k, sums)),
            DistType::Poisson => AnyDistribution::Poisson(PoissonDist { k, lambda: EPOCH_LAMBDA }),
            DistType::Geometric => AnyDistribution::Geometric(
                GeometricDist { k, p: EPOCH_GEOMETRIC_P },
            ),
            DistType::Binomial => AnyDistribution::Binomial(
                BinomialDist { k, n: k as u64 / 2, p: EPOCH_BINOMIAL_P },
            ),
        }
    }
}

impl DegreeDistribution for AnyDistribution {
    open spec fn accepts(&self, draw: u64) -> bool {
        match self {
            AnyDistribution::RobustSoliton(d) => d.accepts(draw),
            AnyDistribution::IdealSoliton(d) => d.accepts(draw),
            AnyDistribution::Poisson(d) => d.accepts(draw),
            AnyDistribution::Geometric(d) => d.accepts(draw),
            AnyDistribution::Binomial(d) => d.accepts(draw),
        }
    }

    open spec fn gives(&self, draw: u64, degree: int) -> bool {
        match self {
            AnyDistribution::RobustSoliton(d) => d.gives(draw, degree),
            AnyDistribution::IdealSoliton(d) => d.gives(draw, degree),
            AnyDistribution::Poisson(d) => d.gives(draw, degree),
            AnyDistribution::Geometric(d) => d.gives(draw, degree),
            AnyDistribution::Binomial(d) => d.gives(draw, degree),
        }
    }

    open spec fn max_degree(&self) -> int {
        match self {
            AnyDistribution::RobustSoliton(d) => d.max_degree(),
            AnyDistribution::IdealSoliton(d) => d.max_degree(),
            AnyDistribution::Poisson(d) => d.max_degree(),
            AnyDistribution::Geometric(d) => d.max_degree(),
            AnyDistribution::Binomial(d) => d.max_degree(),
        }
    }

    /// The degree for what was drawn for the distribution.
    fn sample_degree(&self, draw: u64) -> (degree: usize) {
        match self {
            AnyDistribution::RobustSoliton(d) => d.sample_degree(draw),
            AnyDistribution::IdealSoliton(d) => d.sample_degree(draw),
            AnyDistribution::Poisson(d) => d.sample_degree(draw),
            AnyDistribution::Geometric(d) => d.sample_degree(draw),
            AnyDistribution::Binomial(d) => d.sample_degree(draw),
        }
    }
}

/// A draw has one degree in a distribution of any kind.
pub proof fn law_draw_has_one_degree(dist: AnyDistribution, draw: u64, a: int, b: int)
    requires
        dist.gives(draw, a),
        dist.gives(draw, b),
    ensures
        a == b,
{
    match dist {
        AnyDistribution::RobustSoliton(d) => {
            law_pick_is_unique(d.table@, draw, a, b);
        },
        AnyDistribution::IdealSoliton(d) => {
            let k = d.k as int;
            let p = choose|p: int| #[trigger] picks(d.table@, draw, p) && a == clamped(p, k);
            let q = choose|q: int| #[trigger] picks(d.table@, draw, q) && b == clamped(q, k);
            law_pick_is_unique(d.table@, draw, p, q);
        },
        _ => {},
    }
}

/// A distribution of any kind takes the draws that the distribution inside
/// takes, and gives the same degree for each of them.
pub proof fn law_any_distribution_gives_what_it_holds(
    robust: RobustSoliton,
    ideal: IdealSoliton,
    poisson: PoissonDist,
    geometric: GeometricDist,
    binomial: BinomialDist,
    draw: u64,
    outer: int,
    inner: int,
)
    ensures
        AnyDistribution::RobustSoliton(robust).max_degree() == robust.max_degree(),
        AnyDistribution::IdealSoliton(ideal).max_degree() == ideal.max_degree(),
        AnyDistribution::Poisson(poisson).max_degree() == poisson.max_degree(),
        AnyDistribution::Geometric(geometric).max_degree() == geometric.max_degree(),
        AnyDistribution::Binomial(binomial).max_degree() == binomial.max_degree(),
        AnyDistribution::RobustSoliton(robust).accepts(draw) == robust.accepts(draw),
        AnyDistribution::RobustSoliton(robust).gives(draw, outer) && robust.gives(draw, inner)
            ==> outer == inner,
        AnyDistribution::IdealSoliton(ideal).accepts(draw) == ideal.accepts(draw),
        AnyDistribution::IdealSoliton(ideal).gives(draw, outer) && ideal.gives(draw, inner)
            ==> outer == inner,
        AnyDistribution::Poisson(poisson).accepts(draw) == poisson.accepts(draw),
        AnyDistribution::Poisson(poisson).gives(draw, outer) && poisson.gives(draw, inner)
            ==> outer == inner,
        AnyDistribution::Geometric(geometric).accepts(draw) == geometric.accepts(draw),
        AnyDistribution::Geometric(geometric).gives(draw, outer) && geometric.gives(draw, inner)
            ==> outer == inner,
        AnyDistribution::Binomial(binomial).accepts(draw) == binomial.accepts(draw),
        AnyDistribution::Binomial(binomial).gives(draw, outer) && binomial.gives(draw, inner)
            ==> outer == inner,
{
    let any = AnyDistribution::RobustSoliton(robust);
    if any.gives(draw, outer) && robust.gives(draw, inner) {
        law_draw_has_one_degree(any, draw, outer, inner);
    }
    let any = AnyDistribution::IdealSoliton(ideal);
    if any.gives(draw, outer) && ideal.gives(draw, inner) {
        law_draw_has_one_degree(any, draw, outer, inner);
    }
}

/// The draws of a Poisson or binomial distribution are degrees as they are,
/// from one up to the number of source blocks; lesser ones count as one and
/// greater ones as that number. Every draw is taken where there is a block.
pub proof fn law_draws_up_to_the_number_of_blocks_are_degrees(
    poisson: PoissonDist,
    binomial: BinomialDist,
    draw: u64,
    degree: int,
)
    ensures
        poisson.accepts(draw) <==> poisson.k >= 1,
        poisson.max_degree() == poisson.k,
        draw < 1 ==> (poisson.gives(draw, degree) <==> degree == 1),
        1 <= draw <= poisson.k ==> (poisson.gives(draw, degree) <==> degree == draw),
        poisson.k < draw && poisson.k >= 1 ==> (poisson.gives(draw, degree) <==> degree
            == poisson.k),
        binomial.accepts(draw) <==> binomial.k >= 1,
        binomial.max_degree() == binomial.k,
        draw < 1 ==> (binomial.gives(draw, degree) <==> degree == 1),
        1 <= draw <= binomial.k ==> (binomial.gives(draw, degree) <==> degree == draw),
        binomial.k < draw && binomial.k >= 1 ==> (binomial.gives(draw, degree) <==> degree
            == binomial.k),
{
}

/// A number of failures gives the degree one above it, up to the number of
/// source blocks.
pub proof fn law_failures_give_the_degree_above(geometric: GeometricDist, draw: u64, degree: int)
    ensures
        geometric.accepts(draw) <==> geometric.k >= 1 && draw < u64::MAX,
        geometric.max_degree() == geometric.k,
        draw < geometric.k ==> (geometric.gives(draw, degree) <==> degree == draw + 1),
        1 <= geometric.k <= draw ==> (geometric.gives(draw, degree) <==> degree == geometric.k),
{
}

/// The solitons give the least degree whose entry of the table is no less than
/// the draw.
pub proof fn law_solitons_give_the_least_degree_that_covers_the_draw(
    robust: RobustSoliton,
    ideal: IdealSoliton,
    draw: u64,
    degree: int,
)
    ensures
        robust.max_degree() == robust.k,
        robust.accepts(draw) ==> (robust.gives(draw, degree) <==> {
            &&& 1 <= degree <= robust.k
            &&& draw <= robust.table@[degree]
            &&& forall|i: int| 1 <= i < degree ==> #[trigger] robust.table@[i] < draw
        }),
        ideal.max_degree() == ideal.k,
        ideal.table@.len() == ideal.k + 1 ==> (ideal.gives(draw, degree) <==> {
            &&& 1 <= degree <= ideal.k
            &&& draw <= ideal.table@[degree]
            &&& forall|i: int| 1 <= i < degree ==> #[trigger] ideal.table@[i] < draw
        }),
{
    if ideal.table@.len() == ideal.k + 1 {
        if 1 <= degree <= ideal.k && draw <= ideal.table@[degree] && forall|i: int|
            1 <= i < degree ==> #[trigger] ideal.table@[i] < draw {
            assert(picks(ideal.table@, draw, degree) && degree == clamped(degree, ideal.k as int));
        }
        if ideal.gives(draw, degree) {
            let d = choose|d: int| #[trigger]
                picks(ideal.table@, draw, d) && degree == clamped(d, ideal.k as int);
            assert(degree == d);
        }
    }
}

/// Which draws the solitons take: those below one, where the table covers the
/// source blocks and is ordered.
pub proof fn law_solitons_take_draws_below_one(
    robust: RobustSoliton,
    ideal: IdealSoliton,
    draw: u64,
)
    ensures
        robust.accepts(draw) <==> robust.k >= 1 && robust.table@.len() == robust.k + 1 && draw
            < 0x3FF0_0000_0000_0000 && is_ordered(robust.table@),
        ideal.accepts(draw) <==> ideal.k >= 1 && draw < 0x3FF0_0000_0000_0000 && is_ordered(
            ideal.table@,
        ),
{
}

/// Which parameters the robust soliton distribution has: at least one source
/// block, a factor above zero that is a number, and a bound strictly between
/// zero and one.
pub proof fn law_parameters_of_the_robust_soliton(k: usize, c: u64, delta: u64)
    ensures
        RobustSoliton::has_parameters(k, c, delta) <==> {
            &&& k >= 1
            &&& 1 <= c <= 0x7FF0_0000_0000_0000
            &&& 1 <= delta < 0x3FF0_0000_0000_0000
        },
{
}

/// Which kinds of distributions have a table.
pub proof fn law_solitons_have_tables(kind: DistType)
    ensures
        kind.has_table() <==> (kind == DistType::RobustSoliton || kind == DistType::IdealSoliton),
{
}

} // verus!
