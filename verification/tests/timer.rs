use halide_raytracer::timer::{reading_of, Timer};

#[test]
fn stages_take_the_time_between_their_readings() {
    let mut timer = Timer::new();
    timer.reset_at(1_000);
    timer.stage_end_at("generate data", 4_500);
    timer.stage_end_at("update texture", 4_600);
    timer.stage_end_at("clock went back", 4_000);
    assert_eq!(
        timer.get_durations(),
        vec![("generate data", 3_500), ("update texture", 100), ("clock went back", 0)]
    );
}

#[test]
fn reset_forgets_the_stages() {
    let mut timer = Timer::new();
    assert!(timer.get_durations().is_empty());
    timer.stage_end("first");
    assert_eq!(timer.get_durations().len(), 1);
    assert_eq!(timer.get_durations()[0].0, "first");
    timer.reset();
    assert!(timer.get_durations().is_empty());
}

#[test]
fn the_clock_moves_on() {
    let mut timer = Timer::new();
    let begun = std::time::Instant::now();
    while begun.elapsed() < std::time::Duration::from_millis(5) {}
    timer.stage_end("sleep");
    timer.stage_end("nothing");
    let durations = timer.get_durations();
    assert_eq!(durations.len(), 2);
    assert!(durations[0].1 >= 5_000_000);
    assert!(durations[1].1 < 5_000_000_000);
}

#[test]
fn readings_hold_what_fits() {
    assert_eq!(reading_of(0), 0);
    assert_eq!(reading_of(1_234_567), 1_234_567);
    assert_eq!(reading_of(u64::MAX as u128), u64::MAX);
    assert_eq!(reading_of(u64::MAX as u128 + 1), u64::MAX);
    assert_eq!(reading_of(u128::MAX), u64::MAX);
}
