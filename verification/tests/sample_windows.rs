use sonar_vision::beam::beam_plan;
use sonar_vision::windows::{centred_spans, sliding_spans, smoothing_window, trailing_spans};

#[test]
fn windows_smoothing_window_is_clipped() {
    assert_eq!(smoothing_window(441, 22, 5), 110);
    assert_eq!(smoothing_window(50, 22, 5), 50);
    assert_eq!(smoothing_window(441, 0, 5), 1);
    assert_eq!(smoothing_window(0, 3, 3), 1);
}

#[test]
fn windows_centred_spans_clip_at_both_ends() {
    assert_eq!(centred_spans(5, 4), vec![(0, 3), (0, 4), (0, 5), (1, 5), (2, 5)]);
    assert_eq!(centred_spans(3, 1), vec![(0, 1), (1, 2), (2, 3)]);
    assert!(centred_spans(0, 8).is_empty());
}

#[test]
fn windows_trailing_spans_include_the_sample() {
    assert_eq!(trailing_spans(4, 2), vec![(0, 1), (0, 2), (0, 3), (1, 4)]);
    assert_eq!(trailing_spans(2, 0), vec![(0, 1), (1, 2)]);
}

#[test]
fn windows_matched_filter_positions() {
    // A three-sample template over seven samples fits at five offsets.
    let spans = sliding_spans(7, 3);
    assert_eq!(spans.len(), 5);
    assert_eq!(spans[2], (2, 5));
    let signal = [0.0, 0.0, 1.0, 1.0, 1.0, 0.0, 0.0];
    let (s, e) = spans[2];
    let sum: f64 = signal[s..e].iter().sum();
    assert!((sum - 3.0).abs() < 0.001);
    assert!(sliding_spans(2, 3).is_empty());
    assert_eq!(sliding_spans(2, 0), vec![(0, 0), (1, 1), (2, 2)]);
}

#[test]
fn beam_plan_aligns_shifted_channels() {
    // Two four-sample channels, the second delayed by one sample.
    let shift = (0.000001f64 * 1_000_000.0).round() as isize;
    assert_eq!(shift, 1);
    let plan = beam_plan(&vec![4, 4], &vec![0, shift]);
    assert_eq!(plan.len(), 4);
    assert_eq!(plan[0], vec![(0, 0)]);
    assert_eq!(plan[1], vec![(0, 1), (1, 0)]);
    assert_eq!(plan[3], vec![(0, 3), (1, 2)]);
    let signals = [vec![1.0, 2.0, 3.0, 0.0], vec![0.0, 1.0, 2.0, 3.0]];
    let out: Vec<f64> = plan
        .iter()
        .map(|l| l.iter().fold(0.0, |a, &(s, i)| a + signals[s][i]) / l.len() as f64)
        .collect();
    assert_eq!(out, vec![1.0, 1.0, 2.0, 1.0]);
}

#[test]
fn beam_plan_degenerate_inputs() {
    assert!(beam_plan(&vec![], &vec![]).is_empty());
    assert!(beam_plan(&vec![3, 3], &vec![0]).is_empty());
    assert!(beam_plan(&vec![0, 0], &vec![0, 0]).is_empty());
    let plan = beam_plan(&vec![2, 3], &vec![-1, 5]);
    assert_eq!(plan, vec![vec![(0, 1)], vec![], vec![]]);
}

#[test]
fn beam_plan_lists_every_landing_sample() {
    let lens = vec![3usize, 5, 2];
    let shifts = vec![1isize, -2, 0];
    let plan = beam_plan(&lens, &shifts);
    assert_eq!(plan.len(), 5);
    for s in 0..3 {
        for i in 0..lens[s] {
            let j = i as isize + shifts[s];
            if j >= 0 && (j as usize) < plan.len() {
                assert!(plan[j as usize].contains(&(s, i)));
            }
        }
    }
    for (j, landing) in plan.iter().enumerate() {
        for &(s, i) in landing {
            assert_eq!(i as isize + shifts[s], j as isize);
        }
    }
}
