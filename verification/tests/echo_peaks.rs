use sonar_vision::peaks::select_peaks;

fn candidates(signal: &[f64], threshold: f64) -> Vec<bool> {
    let n = signal.len();
    (0..n)
        .map(|i| {
            i >= 1
                && i + 1 < n
                && signal[i] > threshold
                && signal[i] > signal[i - 1]
                && signal[i] > signal[i + 1]
        })
        .collect()
}

#[test]
fn test_detect_echoes() {
    // Create signal with two echoes
    let mut signal = vec![0.0; 1000];
    signal[100] = 0.8;
    signal[500] = 0.6;
    let sample_rate = 1_000_000.0;
    let min_sep = (0.0001f64 * sample_rate) as usize;
    let echoes = select_peaks(&candidates(&signal, 0.5), min_sep);
    assert_eq!(echoes.len(), 2);
    assert_eq!(echoes, vec![100, 500]);
    let rtt = echoes[0] as f64 / sample_rate;
    let distance = rtt * 343.0 / 2.0;
    assert!((distance - 0.01715).abs() < 0.001);
}

#[test]
fn peaks_respect_min_separation() {
    let mut c = vec![false; 40];
    c[10] = true;
    c[15] = true;
    c[30] = true;
    assert_eq!(select_peaks(&c, 10), vec![10, 30]);
    assert_eq!(select_peaks(&c, 0), vec![10, 15, 30]);
    assert_eq!(select_peaks(&c, 16), vec![30]);
}

#[test]
fn peaks_first_one_measured_from_sample_zero() {
    let mut c = vec![false; 200];
    c[50] = true;
    c[150] = true;
    assert_eq!(select_peaks(&c, 100), vec![150]);
}

#[test]
fn peaks_never_at_the_ends() {
    assert_eq!(select_peaks(&vec![true, true, true], 0), vec![1]);
    assert_eq!(select_peaks(&vec![true, true], 0), Vec::<usize>::new());
    assert_eq!(select_peaks(&vec![], 0), Vec::<usize>::new());
}
