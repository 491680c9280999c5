use sonar_vision::noise::{lcg_step, noise_words, LCG_INC, LCG_MUL};

#[test]
fn noise_lcg_step_values() {
    assert_eq!(lcg_step(0), 1442695040888963407);
    assert_eq!(lcg_step(1), 6364136223846793005u64.wrapping_add(1442695040888963407));
    assert_eq!(lcg_step(42), 42u64.wrapping_mul(LCG_MUL).wrapping_add(LCG_INC));
}

#[test]
fn noise_words_are_top_bits_of_states() {
    let words = noise_words(42, 3);
    let s1 = lcg_step(42);
    let s2 = lcg_step(s1);
    let s3 = lcg_step(s2);
    assert_eq!(words, vec![(s1 >> 33) as u32, (s2 >> 33) as u32, (s3 >> 33) as u32]);
}

#[test]
fn test_noise_generation() {
    let n = (44100.0f64 * 0.1) as usize;
    let words = noise_words(42, n);
    assert_eq!(words.len(), 4410);
    // All values should be within [-1, 1] range approximately
    for &w in &words {
        assert!(w < 0x8000_0000);
        let val = (w as f64) / (1u64 << 31) as f64;
        let s = 1.0 * (val * 2.0 - 1.0);
        assert!(s.abs() <= 1.1); // small tolerance
        assert!(s.abs() <= 1.0);
    }
}

#[test]
fn noise_words_depend_only_on_seed() {
    assert_eq!(noise_words(42, 10), noise_words(42, 10));
    assert_ne!(noise_words(42, 10), noise_words(43, 10));
    assert!(noise_words(7, 0).is_empty());
}
