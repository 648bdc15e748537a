use alco::builder::ParamBuilder;
use alco::sample::Sample;
use alco::sampler::{Sampler, SamplerAction};
use alco::samples::Samples;
use alco::text::chars_of_str;

/// Drive the sampling loop with a synthetic cost model and return the
/// collected dataset.
fn drive(builder: ParamBuilder, calibration: u64, cost: impl Fn(&Samples) -> u64) -> Vec<(Samples, u64)> {
    let (mut sampler, mut action) = Sampler::start(builder);
    let mut rounds = 0;
    loop {
        rounds += 1;
        assert!(rounds < 10_000, "the loop must finish");
        match action {
            SamplerAction::Measure(assignment) => {
                let ir = if assignment.setup_only {
                    calibration
                } else {
                    calibration + cost(&assignment)
                };
                let (next, next_action) = sampler.step(ir);
                sampler = next;
                action = next_action;
            },
            SamplerAction::Finished => return sampler.dataset,
            SamplerAction::Abort => panic!("no parameter is empty here"),
        }
    }
}

#[test]
fn linear_growth_is_sampled_with_exact_deltas() {
    let mut b = ParamBuilder::new();
    b.add_usize_range("n", 1, 1024, 1).unwrap();
    let dataset = drive(b, 900, |a| 100 * a.get_usize("n").unwrap() as u64);
    assert!(!dataset.is_empty());
    for (assignment, delta) in &dataset {
        let n = assignment.get_usize("n").unwrap() as u64;
        assert_eq!(*delta, 100 * n, "delta against calibration is exact");
    }
}

#[test]
fn exponential_growth_expands_by_single_steps() {
    let mut b = ParamBuilder::new();
    b.add_usize_range("n", 0, 100, 1).unwrap();
    // Roughly doubling cost per step, as a recursion would show.
    let dataset = drive(b, 1000, |a| 1u64 << a.get_usize("n").unwrap().min(40));
    assert!(!dataset.is_empty());
    // Deltas strictly increase along the seeded axis.
    let mut seen: Vec<u64> = dataset
        .iter()
        .map(|(a, d)| (a.get_usize("n").unwrap(), *d))
        .map(|(_, d)| d)
        .collect();
    seen.dedup();
    assert!(seen.len() >= 2);
}

#[test]
fn saturated_cost_stops_the_axis_early() {
    let mut b = ParamBuilder::new();
    b.add_usize_range("n", 0, 1_000_000, 1).unwrap();
    // Constant cost: the estimator must signal saturation and the loop must
    // end long before the axis is exhausted.
    let dataset = drive(b, 500, |_| 42);
    assert!(dataset.len() < 100);
    for (_, delta) in &dataset {
        assert_eq!(*delta, 42);
    }
}

#[test]
fn two_axes_draw_joint_combinations() {
    let mut b = ParamBuilder::new();
    b.add_usize_range("n", 1, 64, 1).unwrap();
    b.add_usize_range("m", 1, 64, 1).unwrap();
    let dataset = drive(b, 2000, |a| {
        let n = a.get_usize("n").unwrap() as u64;
        let m = a.get_usize("m").unwrap() as u64;
        7 * n * m
    });
    assert!(!dataset.is_empty());
    for (assignment, delta) in &dataset {
        assert_eq!(assignment.entries.len(), 2);
        let n = assignment.get_usize("n").unwrap() as u64;
        let m = assignment.get_usize("m").unwrap() as u64;
        assert_eq!(*delta, 7 * n * m);
    }
}

#[test]
fn item_axes_take_every_index() {
    let mut b = ParamBuilder::new();
    b.add_items(
        "mode",
        vec![Sample::Str(chars_of_str("a")), Sample::Str(chars_of_str("b"))],
    )
    .unwrap();
    let dataset = drive(b, 100, |_| 5);
    // Item axes skip seeding; both combinations appear jointly.
    assert_eq!(dataset.len(), 2);
}

#[test]
fn measurements_below_the_baseline_clamp_to_zero() {
    let mut b = ParamBuilder::new();
    b.add_usize_range("n", 0, 4, 1).unwrap();
    let (sampler, action) = Sampler::start(b);
    let assignment = match action {
        SamplerAction::Measure(a) => a,
        _ => panic!("expected the calibration request"),
    };
    assert!(assignment.setup_only);
    // Calibration of 1000, then a first seeding measurement below it.
    let (sampler, action) = sampler.step(1000);
    match action {
        SamplerAction::Measure(a) => assert!(!a.setup_only),
        _ => panic!("expected a seeding request"),
    }
    let (sampler, _) = sampler.step(900);
    assert_eq!(sampler.dataset.last().unwrap().1, 0);
}

#[test]
fn empty_parameters_abort_the_group() {
    let mut b = ParamBuilder::new();
    b.add_items("empty", vec![]).unwrap();
    let (_, action) = Sampler::start(b);
    assert!(matches!(action, SamplerAction::Abort));
}

#[test]
fn an_empty_registry_measures_one_empty_combination() {
    let b = ParamBuilder::new();
    let dataset = drive(b, 300, |_| 11);
    assert_eq!(dataset.len(), 1);
    let (assignment, delta) = &dataset[0];
    assert!(assignment.entries.is_empty());
    assert!(!assignment.setup_only);
    assert_eq!(*delta, 11);
}
