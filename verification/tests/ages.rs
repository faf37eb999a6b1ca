use demography::ages::Ages;
use demography::ages::MAX_LIFESPAN;
use demography::rate::Rate;

fn rate(value: f64) -> Rate {
    Rate::from_bits(value.to_bits())
}

fn table(counts: [u64; MAX_LIFESPAN], birth: f64, death: f64) -> Ages {
    Ages::new(counts, [rate(birth); MAX_LIFESPAN], [rate(death); MAX_LIFESPAN])
}

#[test]
fn demographics_zero_population_stays_zero() {
    let mut ages = Ages::new(
        [0; MAX_LIFESPAN],
        [rate(0.0); MAX_LIFESPAN],
        [rate(0.0); MAX_LIFESPAN],
    );
    let cloned_ages = ages.clone();
    for _ in 0..(MAX_LIFESPAN + 1) {
        ages.step_year();
        assert_eq!(cloned_ages, ages);
    }
}

#[test]
fn demographics_high_birth_rates_quickly_saturate_population() {
    let mut ages = Ages::new(
        [1; MAX_LIFESPAN],
        [rate(2.0); MAX_LIFESPAN],
        [rate(0.0); MAX_LIFESPAN],
    );
    for _ in 0..1000 {
        ages.step_year();
    }
    assert_eq!(
        ages,
        Ages::new(
            [u64::MAX; MAX_LIFESPAN],
            [rate(2.0); MAX_LIFESPAN],
            [rate(0.0); MAX_LIFESPAN]
        )
    );
}

#[test]
fn demographics_reasonable_rates_dont_quickly_saturate_or_destroy_population() {
    let mut ages = Ages::new(
        [100; MAX_LIFESPAN],
        [rate(1.05); MAX_LIFESPAN],
        [rate(0.007); MAX_LIFESPAN],
    );
    for _ in 0..100000 {
        ages.step_year();
    }
    assert_ne!(
        ages,
        Ages::new(
            [u64::MAX; MAX_LIFESPAN],
            [rate(1.05); MAX_LIFESPAN],
            [rate(0.007); MAX_LIFESPAN]
        )
    );
    assert_ne!(
        ages,
        Ages::new(
            [0; MAX_LIFESPAN],
            [rate(1.05); MAX_LIFESPAN],
            [rate(0.007); MAX_LIFESPAN]
        )
    );
}

#[test]
fn lib_zero_population_stays_zero() {
    let mut ages = Ages::new(
        [0; MAX_LIFESPAN],
        [rate(0.0); MAX_LIFESPAN],
        [rate(0.0); MAX_LIFESPAN],
    );
    let cloned_ages = ages.clone();
    for _ in 0..(MAX_LIFESPAN + 1) {
        ages.step_year();
        assert_eq!(cloned_ages, ages);
    }
}

#[test]
fn lib_high_birth_rates_quickly_saturate_population() {
    let mut ages = Ages::new(
        [1; MAX_LIFESPAN],
        [rate(2.0); MAX_LIFESPAN],
        [rate(0.0); MAX_LIFESPAN],
    );
    for _ in 0..1000 {
        ages.step_year();
    }
    assert_eq!(
        ages,
        Ages::new(
            [u64::MAX; MAX_LIFESPAN],
            [rate(2.0); MAX_LIFESPAN],
            [rate(0.0); MAX_LIFESPAN]
        )
    );
}

#[test]
fn lib_reasonable_rates_dont_quickly_saturate_or_destroy_population() {
    let mut ages = Ages::new(
        [1; MAX_LIFESPAN],
        [rate(1.05); MAX_LIFESPAN],
        [rate(0.007); MAX_LIFESPAN],
    );
    for _ in 0..1000000 {
        ages.step_year();
    }
    assert_ne!(
        ages,
        Ages::new(
            [u64::MAX; MAX_LIFESPAN],
            [rate(1.05); MAX_LIFESPAN],
            [rate(0.007); MAX_LIFESPAN]
        )
    );
    assert_ne!(
        ages,
        Ages::new(
            [0; MAX_LIFESPAN],
            [rate(1.05); MAX_LIFESPAN],
            [rate(0.007); MAX_LIFESPAN]
        )
    );
}

#[test]
fn zero_population_stays_zero_under_any_rates() {
    let mut birth_rates = [rate(0.0); MAX_LIFESPAN];
    let mut death_rates = [rate(0.0); MAX_LIFESPAN];
    let samples = [
        3.5,
        f64::INFINITY,
        f64::NAN,
        -2.0,
        f64::MAX,
        f64::MIN_POSITIVE,
        f64::NEG_INFINITY,
        0.25,
    ];
    for age in 0..MAX_LIFESPAN {
        birth_rates[age] = rate(samples[age % samples.len()]);
        death_rates[age] = rate(samples[(age + 3) % samples.len()]);
    }
    let mut ages = Ages::new([0; MAX_LIFESPAN], birth_rates, death_rates);
    for _ in 0..10 {
        ages.step_year();
        assert_eq!(ages.counts(), &[0; MAX_LIFESPAN]);
    }
    assert_eq!(
        ages.birth_rates().map(|rate| rate.to_bits()),
        birth_rates.map(|rate| rate.to_bits())
    );
    assert_eq!(
        ages.death_rates().map(|rate| rate.to_bits()),
        death_rates.map(|rate| rate.to_bits())
    );
}

#[test]
fn a_table_with_a_rate_that_is_no_number_differs_from_itself() {
    let mut death_rates = [rate(0.0); MAX_LIFESPAN];
    let sound = table([5; MAX_LIFESPAN], 0.0, 0.0);
    assert_eq!(sound, sound.clone());
    assert_eq!(sound, table([5; MAX_LIFESPAN], -0.0, 0.0));
    assert_ne!(sound, table([5; MAX_LIFESPAN], 0.0, 0.5));
    assert_ne!(sound, table([6; MAX_LIFESPAN], 0.0, 0.0));
    death_rates[7] = rate(f64::NAN);
    let unsound = Ages::new([5; MAX_LIFESPAN], [rate(0.0); MAX_LIFESPAN], death_rates);
    assert_ne!(unsound, unsound.clone());
}

#[test]
fn step_year_moves_every_cohort_up_by_one() {
    let mut counts = [0u64; MAX_LIFESPAN];
    let mut birth_rates = [rate(0.0); MAX_LIFESPAN];
    let mut death_rates = [rate(0.0); MAX_LIFESPAN];
    counts[0] = 10;
    counts[5] = 200;
    counts[40] = 7;
    birth_rates[5] = rate(0.5);
    birth_rates[40] = rate(1.0);
    death_rates[0] = rate(0.125);
    death_rates[5] = rate(0.25);
    death_rates[40] = rate(1.0);
    let mut ages = Ages::new(counts, birth_rates, death_rates);
    ages.step_year();
    let mut expected = [0u64; MAX_LIFESPAN];
    expected[0] = 107;
    expected[1] = 9;
    expected[6] = 150;
    assert_eq!(ages.counts(), &expected);
    assert_eq!(ages.birth_rates(), &birth_rates);
    assert_eq!(ages.death_rates(), &death_rates);
}

#[test]
fn step_year_takes_rates_by_age_not_by_position_after_the_move() {
    let mut counts = [0u64; MAX_LIFESPAN];
    let mut death_rates = [rate(0.0); MAX_LIFESPAN];
    counts[2] = 1000;
    death_rates[2] = rate(0.5);
    death_rates[3] = rate(0.1);
    let mut ages = Ages::new(counts, [rate(0.0); MAX_LIFESPAN], death_rates);
    ages.step_year();
    assert_eq!(ages.counts()[3], 500);
    ages.step_year();
    assert_eq!(ages.counts()[4], 450);
    assert_eq!(ages.counts()[3], 0);
}

#[test]
fn the_oldest_cohort_does_not_survive_the_year() {
    let mut counts = [0u64; MAX_LIFESPAN];
    counts[MAX_LIFESPAN - 1] = 7;
    counts[MAX_LIFESPAN - 2] = 3;
    let mut ages = table(counts, 0.0, 0.0);
    ages.step_year();
    let mut expected = [0u64; MAX_LIFESPAN];
    expected[MAX_LIFESPAN - 1] = 3;
    assert_eq!(ages.counts(), &expected);
    ages.step_year();
    assert_eq!(ages.counts(), &[0; MAX_LIFESPAN]);
}

#[test]
fn births_stop_at_the_largest_count() {
    let mut counts = [0u64; MAX_LIFESPAN];
    counts[20] = u64::MAX - 5;
    counts[21] = 10;
    let mut ages = table(counts, 1.0, 0.0);
    ages.step_year();
    assert_eq!(ages.counts()[0], u64::MAX);
    assert_eq!(ages.counts()[22], 10);
}

#[test]
fn births_just_below_the_largest_count_are_exact() {
    let mut counts = [0u64; MAX_LIFESPAN];
    counts[20] = 1 << 63;
    counts[21] = (1 << 63) - 1024;
    let mut ages = table(counts, 1.0, 0.0);
    ages.step_year();
    assert_eq!(ages.counts()[0], u64::MAX - 1023);
}

#[test]
fn deaths_stop_at_nobody_left() {
    let mut counts = [0u64; MAX_LIFESPAN];
    counts[3] = 10;
    counts[4] = 10;
    let mut death_rates = [rate(0.0); MAX_LIFESPAN];
    death_rates[3] = rate(2.0);
    death_rates[4] = rate(f64::INFINITY);
    let mut ages = Ages::new(counts, [rate(0.0); MAX_LIFESPAN], death_rates);
    ages.step_year();
    assert_eq!(ages.counts(), &[0; MAX_LIFESPAN]);
}

#[test]
fn saturated_table_is_a_fixed_point() {
    let full = Ages::new(
        [u64::MAX; MAX_LIFESPAN],
        [rate(2.0); MAX_LIFESPAN],
        [rate(0.0); MAX_LIFESPAN],
    );
    let mut ages = full.clone();
    for _ in 0..5 {
        ages.step_year();
        assert_eq!(ages, full);
    }
}

#[test]
fn saturation_is_reached_within_two_lifespans() {
    let mut ages = table([1; MAX_LIFESPAN], 2.0, 0.0);
    for _ in 0..(2 * MAX_LIFESPAN) {
        ages.step_year();
    }
    assert_eq!(ages.counts(), &[u64::MAX; MAX_LIFESPAN]);
}

#[test]
fn reasonable_rates_keep_the_youngest_cohort_largest() {
    let mut ages = table([100; MAX_LIFESPAN], 1.05, 0.007);
    for _ in 0..1000 {
        ages.step_year();
    }
    let counts = ages.counts();
    assert_eq!(counts[0], u64::MAX);
    for age in 1..MAX_LIFESPAN {
        assert!(counts[age] < counts[age - 1]);
        assert!(counts[age] > 0);
    }
}

#[test]
fn population_is_the_sum_of_the_counts() {
    let mut counts = [0u64; MAX_LIFESPAN];
    for age in 0..MAX_LIFESPAN {
        counts[age] = (age as u64) * 3 + 1;
    }
    let ages = table(counts, 0.0, 0.0);
    assert_eq!(ages.population(), Some(21540));
    assert_eq!(table([0; MAX_LIFESPAN], 1.0, 1.0).population(), Some(0));
}

#[test]
fn population_that_no_count_can_hold_is_none() {
    let mut counts = [0u64; MAX_LIFESPAN];
    counts[0] = u64::MAX;
    assert_eq!(table(counts, 0.0, 0.0).population(), Some(u64::MAX));
    counts[119] = 1;
    assert_eq!(table(counts, 0.0, 0.0).population(), None);
    assert_eq!(table([u64::MAX; MAX_LIFESPAN], 0.0, 0.0).population(), None);
}
