use std::time::Duration;

use dual_optimistic::latency::{
    baseline_latency, optimistic_latency, until_hard_commit, wave_latency, InMemoryNetworkClient,
    LatencyModel, UniformLatency, ZeroLatency,
};

#[test]
fn bench_baseline() {
    let delta_ms = 100u64;
    let exec_ms = 50u64;
    let elapsed = Duration::from_millis(baseline_latency(delta_ms, exec_ms));
    let expected = Duration::from_millis(3 * delta_ms + exec_ms);
    assert!(elapsed >= expected, "baseline latency {elapsed:?} < expected {expected:?}");
    assert!(
        elapsed < expected + Duration::from_millis(5),
        "baseline latency {elapsed:?} much larger than expected {expected:?}"
    );
}

#[test]
fn bench_optimistic_faster_than_baseline() {
    let delta_ms = 100u64;
    let exec_ms = 50u64;
    let opt = Duration::from_millis(optimistic_latency(delta_ms, exec_ms));
    let base = Duration::from_millis(baseline_latency(delta_ms, exec_ms));
    assert!(opt < base, "optimistic {opt:?} should be < baseline {base:?}");

    let gain = base.saturating_sub(opt);
    let expected_gain = Duration::from_millis(exec_ms);
    assert!(
        gain >= expected_gain.saturating_sub(Duration::from_millis(2)),
        "pipeline gain {gain:?} should be ≈ {expected_gain:?}"
    );
    assert_eq!(opt, Duration::from_millis(300));
}

#[test]
fn bench_conflict_sweep() {
    let delta_ms = 100u64;
    let exec_ms = 40u64;
    let cases: &[(u64, u64)] = &[(0, exec_ms), (50, exec_ms / 2), (100, 0)];

    for &(conflict_pct, min_gain_ms) in cases {
        const WAVES: u64 = 10;
        let mut total_opt = Duration::ZERO;
        let mut total_base = Duration::ZERO;

        for wave in 0..WAVES {
            let has_conflict = (wave * 100 / WAVES) < conflict_pct;
            total_opt += Duration::from_millis(wave_latency(delta_ms, exec_ms, has_conflict));
            total_base += Duration::from_millis(baseline_latency(delta_ms, exec_ms));
        }

        let avg_opt = total_opt / WAVES as u32;
        let avg_base = total_base / WAVES as u32;
        let gain = avg_base.saturating_sub(avg_opt);
        let min_gain = Duration::from_millis(min_gain_ms);

        assert!(
            gain >= min_gain,
            "conflict_pct={conflict_pct}%: avg gain {gain:?} < expected min {min_gain:?}"
        );
        assert!(
            avg_opt <= avg_base,
            "conflict_pct={conflict_pct}%: optimistic {avg_opt:?} > baseline {avg_base:?}"
        );
    }
}

#[test]
fn gain_is_the_lesser_of_delta_and_execution() {
    for (delta, exec, gain) in [(100, 50, 50), (100, 250, 100), (100, 0, 0), (0, 30, 0)] {
        assert_eq!(baseline_latency(delta, exec) - optimistic_latency(delta, exec), gain);
    }
    assert_eq!(optimistic_latency(100, 250), 450);
}

#[test]
fn waits_until_the_hard_commit() {
    assert_eq!(until_hard_commit(100, 250), 50);
    assert_eq!(until_hard_commit(100, 300), 0);
    assert_eq!(until_hard_commit(100, 400), 0);
}

#[test]
fn delays_stay_in_range() {
    assert_eq!(ZeroLatency.delay(17), 0);
    let uniform = UniformLatency { min: 10, max: 19 };
    assert_eq!(uniform.delay(0), 10);
    assert_eq!(uniform.delay(9), 19);
    assert_eq!(uniform.delay(10), 10);
    assert_eq!(uniform.delay(u64::MAX), 15);
    let any = UniformLatency { min: 0, max: u64::MAX };
    assert_eq!(any.delay(u64::MAX), u64::MAX);
    let client = InMemoryNetworkClient::new(ZeroLatency);
    assert!(format!("{client:?}").contains("ZeroLatency"));
}
