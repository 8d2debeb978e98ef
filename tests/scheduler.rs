use rusty_shooter::scheduler::{sleep_time, FrameLimiter, GameTime, Scheduler};

const STEP_60: u64 = 16_666_666;

#[test]
fn stall_of_fifty_ms_runs_three_updates() {
    let mut s = Scheduler::new(STEP_60);
    let plan = s.plan_updates(50_000_000);
    assert_eq!(plan.len(), 3);
    for (i, t) in plan.iter().enumerate() {
        assert_eq!(t.delta, STEP_60);
        assert_eq!(t.elapsed, (i as u64 + 1) * STEP_60);
    }
    assert_eq!(s.time.elapsed, 49_999_998);
    assert_eq!(s.steps, 3);
}

#[test]
fn updates_track_wall_clock_over_samples() {
    let mut s = Scheduler::new(STEP_60);
    let mut issued: u64 = 0;
    for wall in [0u64, 5_000_000, 17_000_000, 40_000_000, 40_000_001, 1_000_000_000] {
        let plan = s.plan_updates(wall);
        for t in &plan {
            assert_eq!(t.delta, STEP_60);
        }
        issued += plan.len() as u64;
        assert!(issued * STEP_60 <= wall);
        assert!(wall < issued * STEP_60 + STEP_60);
    }
    assert_eq!(issued, 60);
    assert_eq!(s.steps, 60);
}

#[test]
fn wall_behind_simulated_clock_plans_nothing() {
    let mut s = Scheduler::new(10);
    assert_eq!(s.plan_updates(35).len(), 3);
    assert_eq!(s.plan_updates(20).len(), 0);
    assert_eq!(s.steps_due(20), 0);
    assert_eq!(s.steps_due(59), 2);
    assert_eq!(s.time.elapsed, 30);
}

#[test]
fn next_step_needs_a_whole_step() {
    let mut s = Scheduler::new(10);
    assert_eq!(s.next_step(9), None);
    assert_eq!(s.next_step(10), Some(GameTime { elapsed: 10, delta: 10 }));
    assert_eq!(s.next_step(19), None);
    assert_eq!(s.next_step(25), Some(GameTime { elapsed: 20, delta: 10 }));
}

#[test]
fn short_frame_sleeps_the_rest_of_the_period() {
    assert_eq!(sleep_time(4_000_000, STEP_60), STEP_60 - 4_000_000);
    let mut l = FrameLimiter::new(1_000);
    let sleep = l.limit_fps(1_000 + 6_000_000, 60);
    assert_eq!(sleep, STEP_60 - 6_000_000);
    assert_eq!(sleep + 6_000_000, STEP_60);
    assert_eq!(l.last_tick_time, 1_000 + STEP_60);
}

#[test]
fn next_frame_is_measured_from_end_of_sleep() {
    let mut l = FrameLimiter::new(0);
    // A frame of 400 us work at 1000 fps sleeps 600 us.
    assert_eq!(l.limit_fps(400_000, 1000), 600_000);
    assert_eq!(l.last_tick_time, 1_000_000);
    // The next frame's 100 us of work leaves 900 us to sleep.
    assert_eq!(l.limit_fps(1_100_000, 1000), 900_000);
    assert_eq!(l.last_tick_time, 2_000_000);
}

#[test]
fn long_frame_does_not_sleep() {
    assert_eq!(sleep_time(STEP_60, STEP_60), 0);
    assert_eq!(sleep_time(30_000_000, STEP_60), 0);
    let mut l = FrameLimiter::new(0);
    assert_eq!(l.limit_fps(20_000_000, 60), 0);
    assert_eq!(l.last_tick_time, 20_000_000);
}
