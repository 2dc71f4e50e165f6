use rand::{Rng, SeedableRng};
use rand_chacha::ChaCha8Rng;
use sef_core::distribution::{
    AnyDistribution, BinomialDist, DegreeDistribution, DegreeTable, DistType, GeometricDist,
    IdealSoliton, IdealTerm, PoissonDist, RobustSoliton, RobustTerm, EPOCH_BINOMIAL_P,
    EPOCH_GEOMETRIC_P, EPOCH_LAMBDA, INFINITY, ONE, ideal_term, robust_term,
};

fn rho(d: usize, k: f64) -> f64 {
    match ideal_term(d) {
        IdealTerm::First => 1.0 / k,
        IdealTerm::Later => 1.0 / (d as f64 * (d as f64 - 1.0)),
    }
}

fn running_sums(pmf: &[f64], total: f64) -> Vec<u64> {
    let mut sum = 0.0;
    let mut sums = Vec::new();
    for p in pmf {
        sum += p / total;
        sums.push(f64::to_bits(sum));
    }
    sums
}

fn ideal_sums(k: usize) -> Vec<u64> {
    let pmf: Vec<f64> = (1..=k).map(|d| rho(d, k as f64)).collect();
    running_sums(&pmf, 1.0)
}

fn robust_sums(k: usize, c: f64, delta: f64) -> Vec<u64> {
    let k_f = k as f64;
    let s = c * (k_f / delta).ln() * k_f.sqrt();
    let spike = (k_f / s).floor().max(1.0) as usize;
    let mut pmf = Vec::new();
    let mut total = 0.0;
    for d in 1..=k {
        let tau = match robust_term(d, spike) {
            RobustTerm::Ramp => s / (d as f64 * k_f),
            RobustTerm::Spike => (s / k_f) * (s / delta).ln(),
            RobustTerm::Nothing => 0.0,
        };
        let p = rho(d, k_f) + tau;
        pmf.push(p);
        total += p;
    }
    running_sums(&pmf, total)
}

fn robust(k: usize, c: f64, delta: f64) -> RobustSoliton {
    assert!(RobustSoliton::accepts_parameters(k, c.to_bits(), delta.to_bits()));
    RobustSoliton::new(k, c.to_bits(), delta.to_bits(), robust_sums(k, c, delta))
}

fn cdf_of(table: &DegreeTable) -> Vec<f64> {
    table.entries().iter().map(|bits| f64::from_bits(*bits)).collect()
}

fn expected_degree(cdf: &[f64]) -> f64 {
    cdf.windows(2).enumerate().map(|(i, w)| (i + 1) as f64 * (w[1] - w[0])).sum()
}

fn uniform(rng: &mut ChaCha8Rng) -> u64 {
    let u: f64 = rng.gen();
    u.to_bits()
}

#[test]
fn test_distribution_consistency() {
    let k = 1000;
    let dist = robust(k, 0.1, 0.05);
    assert!(dist.table.is_ordered());
    let mut rng = ChaCha8Rng::seed_from_u64(42);

    let expected = expected_degree(&cdf_of(&dist.table));
    let iterations = 100_000;

    let actual_avg: f64 = (0..iterations)
        .map(|_| dist.sample_degree(uniform(&mut rng)) as f64)
        .sum::<f64>()
        / iterations as f64;
    let diff = (actual_avg - expected).abs();

    assert!(
        diff < 0.1,
        "Sampled average {} deviated too far from expected {}",
        actual_avg,
        expected
    );
}

#[test]
fn test_cdf_is_valid() {
    let k = 1000;
    let dist = robust(k, 0.1, 0.05);
    let cdf = cdf_of(&dist.table);
    assert!(cdf[0] == 0.0 && cdf[k] == 1.0);

    for d in 1..=k {
        assert!(cdf[d] >= cdf[d - 1], "CDF not monotone at d={}", d);
    }
}

#[test]
fn test_pmf_sums_to_one() {
    let k = 500;
    let dist = robust(k, 0.1, 0.05);
    let cdf = cdf_of(&dist.table);
    let total: f64 = (1..=k).map(|d| cdf[d] - cdf[d - 1]).sum();
    assert!((total - 1.0).abs() < 1e-10, "PMF does not sum to 1: {}", total);
}

#[test]
fn test_sampling_produces_valid_degrees() {
    let k = 100;
    let dist = robust(k, 0.1, 0.05);
    assert!(dist.table.is_ordered());
    let mut rng = ChaCha8Rng::seed_from_u64(42);

    for _ in 0..10_000 {
        let d = dist.sample_degree(uniform(&mut rng));
        assert!((1..=100).contains(&d), "degree {} out of range", d);
    }
}

#[test]
fn degrees_follow_the_table() {
    for dist in [robust(256, 0.1, 0.05), robust(10, 0.3, 0.01), robust(1, 0.1, 0.5)] {
        let cdf = cdf_of(&dist.table);
        let mut rng = ChaCha8Rng::seed_from_u64(7);
        for _ in 0..5_000 {
            let u: f64 = rng.gen();
            let at = cdf[1..]
                .binary_search_by(|v| v.partial_cmp(&u).unwrap())
                .unwrap_or_else(|e| e);
            assert_eq!(dist.sample_degree(u.to_bits()), at + 1);
        }
    }
}

fn quarters() -> Vec<u64> {
    [0.25f64, 0.5, 0.75, 1.0].iter().map(|p| p.to_bits()).collect()
}

#[test]
fn constants_are_the_patterns_they_stand_for() {
    assert_eq!(ONE, 1.0f64.to_bits());
    assert_eq!(INFINITY, f64::INFINITY.to_bits());
    assert_eq!(EPOCH_LAMBDA, 2.0f64.to_bits());
    assert_eq!(EPOCH_GEOMETRIC_P, 0.1f64.to_bits());
    assert_eq!(EPOCH_BINOMIAL_P, 0.5f64.to_bits());
}

#[test]
fn picks_exact_degrees() {
    let table = DegreeTable::new(quarters());
    assert!(table.is_ordered());
    for (u, degree) in [
        (0.0, 1),
        (0.1, 1),
        (0.25, 1),
        (0.26, 2),
        (0.5, 2),
        (0.74, 3),
        (0.75, 3),
        (0.76, 4),
        (0.999, 4),
    ] {
        assert_eq!(table.pick(f64::to_bits(u)), degree);
    }
}

#[test]
fn the_least_of_equal_entries_is_picked() {
    let sums = [0.25f64, 0.5, 0.5, 0.5, 1.0].iter().map(|p| p.to_bits()).collect();
    let table = DegreeTable::new(sums);
    assert!(table.is_ordered());
    assert_eq!(table.pick(0.25f64.to_bits()), 1);
    assert_eq!(table.pick(0.4f64.to_bits()), 2);
    assert_eq!(table.pick(0.5f64.to_bits()), 2);
    assert_eq!(table.pick(0.6f64.to_bits()), 5);
}

#[test]
fn greater_draws_pick_no_lesser_degrees() {
    let dist = robust(50, 0.1, 0.05);
    let mut last = 1;
    for i in 0..1000 {
        let d = dist.sample_degree((i as f64 / 1000.0).to_bits());
        assert!(d >= last);
        last = d;
    }
    assert_eq!(dist.sample_degree(0), 1);
}

#[test]
fn table_is_closed_with_one() {
    let table = DegreeTable::new(vec![0.5f64.to_bits(), 0.9999f64.to_bits()]);
    assert_eq!(cdf_of(&table), vec![0.0, 0.5, 1.0]);
}

#[test]
fn tables_without_order_are_told_apart() {
    let nan = DegreeTable::new(vec![f64::NAN.to_bits(), 1.0f64.to_bits()]);
    assert!(!nan.is_ordered());
    let negative = DegreeTable::new(vec![(-0.5f64).to_bits(), 1.0f64.to_bits()]);
    assert!(!negative.is_ordered());
    let falling =
        DegreeTable::new(vec![0.5f64.to_bits(), 0.25f64.to_bits(), 1.0f64.to_bits()]);
    assert!(!falling.is_ordered());
    // The last sum is replaced, so that it may be anything.
    let last = DegreeTable::new(vec![0.5f64.to_bits(), f64::NAN.to_bits()]);
    assert!(last.is_ordered());
    // Rounding can take a sum beyond one.
    let beyond = DegreeTable::new(vec![0.5f64.to_bits(), 1.0000001f64.to_bits(), ONE]);
    assert!(beyond.is_ordered());
    assert_eq!(beyond.pick(0.9f64.to_bits()), 2);
}

#[test]
fn parameters_of_the_robust_soliton() {
    let ok = |k: usize, c: f64, delta: f64| {
        RobustSoliton::accepts_parameters(k, c.to_bits(), delta.to_bits())
    };
    assert!(ok(1, 0.1, 0.05));
    assert!(ok(1, f64::INFINITY, 0.05));
    assert!(!ok(0, 0.1, 0.05));
    assert!(!ok(1, 0.0, 0.05));
    assert!(!ok(1, -0.0, 0.05));
    assert!(!ok(1, -1.0, 0.05));
    assert!(!ok(1, f64::NAN, 0.05));
    assert!(!ok(1, 0.1, 0.0));
    assert!(!ok(1, 0.1, 1.0));
    assert!(!ok(1, 0.1, -0.5));
    assert!(!ok(1, 0.1, f64::NAN));
}

#[test]
fn rebuilding_keeps_the_parameters() {
    let mut dist = robust(16, 0.1, 0.05);
    assert_eq!(dist.k(), 16);
    let before = dist.table.entries().clone();
    dist.rebuild(16, vec![]);
    assert_eq!(dist.table.entries(), &before);

    dist.rebuild(32, robust_sums(32, 0.1, 0.05));
    assert_eq!(dist.k(), 32);
    assert_eq!(f64::from_bits(dist.c), 0.1);
    assert_eq!(f64::from_bits(dist.delta), 0.05);
    assert_eq!(dist.table.entries(), robust(32, 0.1, 0.05).table.entries());
}

#[test]
fn terms_of_the_solitons() {
    assert_eq!(ideal_term(1), IdealTerm::First);
    assert_eq!(ideal_term(2), IdealTerm::Later);
    assert_eq!(robust_term(1, 0), RobustTerm::Nothing);
    assert_eq!(robust_term(1, 2), RobustTerm::Ramp);
    assert_eq!(robust_term(2, 2), RobustTerm::Spike);
    assert_eq!(robust_term(3, 2), RobustTerm::Nothing);
}

#[test]
fn ideal_soliton_over_four_blocks() {
    let dist = IdealSoliton::new(4, ideal_sums(4));
    assert_eq!(dist.k, 4);
    let cdf = cdf_of(&dist.table);
    assert_eq!(cdf[0], 0.0);
    assert_eq!(cdf[1], 0.25);
    assert_eq!(cdf[2], 0.75);
    assert_eq!(cdf[4], 1.0);
    assert!(dist.table.is_ordered());
    assert_eq!(dist.sample_degree(0.2f64.to_bits()), 1);
    assert_eq!(dist.sample_degree(0.3f64.to_bits()), 2);
    assert_eq!(dist.sample_degree(0.8f64.to_bits()), 3);
    assert_eq!(dist.sample_degree(0.95f64.to_bits()), 4);
}

#[test]
fn draws_are_moved_into_range() {
    let poisson = PoissonDist { k: 5, lambda: EPOCH_LAMBDA };
    assert_eq!(poisson.sample_degree(0), 1);
    assert_eq!(poisson.sample_degree(3), 3);
    assert_eq!(poisson.sample_degree(6), 5);
    assert_eq!(poisson.sample_degree(u64::MAX), 5);

    let geometric = GeometricDist { k: 5, p: EPOCH_GEOMETRIC_P };
    assert_eq!(geometric.sample_degree(0), 1);
    assert_eq!(geometric.sample_degree(3), 4);
    assert_eq!(geometric.sample_degree(5), 5);
    assert_eq!(geometric.sample_degree(u64::MAX - 1), 5);

    let binomial = BinomialDist { k: 5, n: 10, p: EPOCH_BINOMIAL_P };
    assert_eq!(binomial.sample_degree(0), 1);
    assert_eq!(binomial.sample_degree(4), 4);
    assert_eq!(binomial.sample_degree(10), 5);
}

#[test]
fn distributions_of_an_epoch() {
    let c = 0.3f64.to_bits();
    let delta = 0.01f64.to_bits();
    let make = |kind: DistType| {
        let sums = match kind {
            DistType::RobustSoliton => robust_sums(9, 0.3, 0.01),
            DistType::IdealSoliton => ideal_sums(9),
            _ => vec![],
        };
        AnyDistribution::for_epoch(kind, 9, c, delta, sums)
    };
    assert!(DistType::RobustSoliton.has_table() && DistType::IdealSoliton.has_table());
    assert!(!DistType::Poisson.has_table());
    assert!(!DistType::Geometric.has_table());
    assert!(!DistType::Binomial.has_table());

    let dist = make(DistType::RobustSoliton);
    assert_eq!(dist.sample_degree(0), 1);
    match &dist {
        AnyDistribution::RobustSoliton(d) => {
            assert_eq!((d.k(), d.c, d.delta), (9, c, delta));
        }
        _ => panic!("wrong kind"),
    }
    let dist = make(DistType::IdealSoliton);
    assert_eq!(dist.sample_degree(0.5f64.to_bits()), 2);
    match &dist {
        AnyDistribution::IdealSoliton(d) => assert_eq!(d.k, 9),
        _ => panic!("wrong kind"),
    }
    let dist = make(DistType::Poisson);
    assert_eq!(dist.sample_degree(4), 4);
    match &dist {
        AnyDistribution::Poisson(d) => assert_eq!((d.k, d.lambda), (9, EPOCH_LAMBDA)),
        _ => panic!("wrong kind"),
    }
    let dist = make(DistType::Geometric);
    assert_eq!(dist.sample_degree(4), 5);
    match &dist {
        AnyDistribution::Geometric(d) => assert_eq!((d.k, d.p), (9, EPOCH_GEOMETRIC_P)),
        _ => panic!("wrong kind"),
    }
    let dist = make(DistType::Binomial);
    assert_eq!(dist.sample_degree(12), 9);
    match &dist {
        AnyDistribution::Binomial(d) => assert_eq!((d.k, d.n, d.p), (9, 4, EPOCH_BINOMIAL_P)),
        _ => panic!("wrong kind"),
    }
}

#[test]
fn any_distribution_gives_what_it_holds() {
    let sums = robust_sums(40, 0.1, 0.05);
    let inner = RobustSoliton::new(40, 0.1f64.to_bits(), 0.05f64.to_bits(), sums.clone());
    let outer = AnyDistribution::RobustSoliton(RobustSoliton::new(
        40,
        0.1f64.to_bits(),
        0.05f64.to_bits(),
        sums,
    ));
    let ideal = IdealSoliton::new(40, ideal_sums(40));
    let outer_ideal = AnyDistribution::IdealSoliton(IdealSoliton::new(40, ideal_sums(40)));
    let mut rng = ChaCha8Rng::seed_from_u64(5);
    for _ in 0..1000 {
        let u = uniform(&mut rng);
        assert_eq!(outer.sample_degree(u), inner.sample_degree(u));
        assert_eq!(outer_ideal.sample_degree(u), ideal.sample_degree(u));
    }
    let poisson = AnyDistribution::Poisson(PoissonDist { k: 6, lambda: EPOCH_LAMBDA });
    let geometric = AnyDistribution::Geometric(GeometricDist { k: 6, p: EPOCH_GEOMETRIC_P });
    let binomial = AnyDistribution::Binomial(BinomialDist { k: 6, n: 3, p: EPOCH_BINOMIAL_P });
    for draw in 0..20 {
        assert_eq!(
            poisson.sample_degree(draw),
            PoissonDist { k: 6, lambda: EPOCH_LAMBDA }.sample_degree(draw)
        );
        assert_eq!(
            geometric.sample_degree(draw),
            GeometricDist { k: 6, p: EPOCH_GEOMETRIC_P }.sample_degree(draw)
        );
        assert_eq!(
            binomial.sample_degree(draw),
            BinomialDist { k: 6, n: 3, p: EPOCH_BINOMIAL_P }.sample_degree(draw)
        );
    }
}
