use tabular_rl::metrics::{MetricsRecorder, DEFAULT_WINDOW};

#[test]
fn new_recorder_is_empty() {
    let recorder = MetricsRecorder::new(DEFAULT_WINDOW);
    assert_eq!(recorder.window_size(), 10_000);
    assert!(recorder.episode_rewards().is_empty());
    assert!(recorder.cumulative_rewards().is_empty());
    assert!(recorder.window_averages().is_empty());
}

#[test]
fn records_rewards_and_running_totals() {
    let mut recorder = MetricsRecorder::new(3);
    for reward in [1_000_000, -1_000_000, 0, 500_000] {
        recorder.record_episode(reward);
    }
    assert_eq!(recorder.episode_rewards(), &vec![1_000_000, -1_000_000, 0, 500_000]);
    assert_eq!(recorder.cumulative_rewards(), &vec![1_000_000, 0, 0, 500_000]);
}

#[test]
fn averages_every_full_window() {
    let mut recorder = MetricsRecorder::new(2);
    recorder.record_episode(1_000_000);
    assert!(recorder.window_averages().is_empty());
    recorder.record_episode(0);
    assert_eq!(recorder.window_averages(), &vec![500_000]);
    recorder.record_episode(-1_000_000);
    assert_eq!(recorder.window_averages(), &vec![500_000]);
    recorder.record_episode(-1_000_000);
    assert_eq!(recorder.window_averages(), &vec![500_000, -1_000_000]);
    recorder.record_episode(7);
    assert_eq!(recorder.window_averages().len(), 2);
}

#[test]
fn constant_reward_over_one_window_averages_to_itself() {
    for window in [1usize, 2, 7, 100, 10_000] {
        let mut recorder = MetricsRecorder::new(window);
        for _ in 0..window {
            recorder.record_episode(1_000_000);
        }
        assert_eq!(recorder.window_averages(), &vec![1_000_000]);
        assert_eq!(*recorder.cumulative_rewards().last().unwrap(), 1_000_000 * window as i128);
    }
}

#[test]
fn window_average_rounds_toward_zero() {
    let mut recorder = MetricsRecorder::new(3);
    for reward in [1, 1, 0] {
        recorder.record_episode(reward);
    }
    for reward in [-1, -1, 0] {
        recorder.record_episode(reward);
    }
    assert_eq!(recorder.window_averages(), &vec![0, 0]);
    let mut other = MetricsRecorder::new(2);
    for reward in [-3, -4, 3, 4] {
        other.record_episode(reward);
    }
    assert_eq!(other.window_averages(), &vec![-3, 3]);
}

#[test]
fn totals_do_not_overflow_a_value() {
    let mut recorder = MetricsRecorder::new(2);
    recorder.record_episode(i64::MAX);
    recorder.record_episode(i64::MAX);
    recorder.record_episode(i64::MIN);
    assert_eq!(recorder.window_averages(), &vec![i64::MAX]);
    assert_eq!(
        recorder.cumulative_rewards(),
        &vec![i64::MAX as i128, 2 * (i64::MAX as i128), 2 * (i64::MAX as i128) + i64::MIN as i128]
    );
}
