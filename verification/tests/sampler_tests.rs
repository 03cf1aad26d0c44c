use binvis::sampler::{isqrt, sort_offsets, sample_with_offsets, UniformSampler};

#[test]
fn isqrt_exact_values() {
    assert_eq!(isqrt(0), 0);
    assert_eq!(isqrt(1), 1);
    assert_eq!(isqrt(3), 1);
    assert_eq!(isqrt(4), 2);
    assert_eq!(isqrt(99), 9);
    assert_eq!(isqrt(100), 10);
    assert_eq!(isqrt(101), 10);
    assert_eq!(isqrt(1_000_000_000_000), 1_000_000);
    assert_eq!(isqrt(usize::MAX), 4294967295);
}

#[test]
fn sort_offsets_sorts_and_keeps_elements() {
    let sorted = sort_offsets(vec![5, 3, 9, 3, 0]);
    assert_eq!(sorted, vec![0, 3, 3, 5, 9]);
    let empty = sort_offsets(Vec::new());
    assert!(empty.is_empty());
}

#[test]
fn small_input_returned_whole() {
    // data_size = 10, target_size = 100: the whole input comes back, method
    // "full".
    let data: Vec<u8> = (0u8..10).collect();
    let sampler = UniformSampler;
    let result = sampler.sample(&data, 100);
    assert_eq!(result.data, data);
    assert_eq!(result.metadata.method, "full");
    assert_eq!(result.metadata.original_size, 10);
    assert_eq!(result.metadata.sample_size, 10);
}

#[test]
fn zero_target_returns_whole_input() {
    let data: Vec<u8> = (0u8..10).collect();
    let sampler = UniformSampler;
    let result = sampler.sample(&data, 0);
    assert_eq!(result.data, data);
    assert_eq!(result.metadata.method, "full");
}

#[test]
fn uniform_sampling_with_fixed_offsets() {
    // 100 bytes, target 16: window_size = 4, windows_count = 4, coverage 16,
    // max_offset = 84. Offsets [10, 3, 50, 20] sort to [3, 10, 20, 50] and
    // advance by i * 4 to positions [3, 14, 28, 62].
    let data: Vec<u8> = (0u8..100).collect();
    let result = sample_with_offsets(&data, 16, vec![10, 3, 50, 20]);
    let mut expected: Vec<u8> = Vec::new();
    for start in [3u8, 14, 28, 62] {
        for b in start..start + 4 {
            expected.push(b);
        }
    }
    assert_eq!(result.data, expected);
    assert_eq!(result.metadata.method, "uniform");
    assert_eq!(result.metadata.original_size, 100);
    assert_eq!(result.metadata.sample_size, 16);
}

#[test]
fn uniform_windows_are_ordered_and_sized() {
    let data: Vec<u8> = (0..=255u8).cycle().take(10_000).collect();
    let sampler = UniformSampler;
    // target 100: window_size = 10, windows_count = 10, coverage 100.
    let result = sampler.sample(&data, 100);
    assert_eq!(result.metadata.method, "uniform");
    assert_eq!(result.data.len(), 100);
    assert_eq!(result.metadata.sample_size, 100);
    assert!(result.data.len() <= 100.max(data.len()));
}

#[test]
fn sample_size_never_exceeds_bound() {
    let sampler = UniformSampler;
    for (data_len, target) in [(1000usize, 7usize), (1000, 1), (3, 3), (50, 49)] {
        let data: Vec<u8> = vec![0x5a; data_len];
        let result = sampler.sample(&data, target);
        assert!(result.data.len() <= target.max(data_len));
        assert_eq!(result.metadata.original_size, data_len);
        assert_eq!(result.metadata.sample_size, result.data.len());
    }
}

#[test]
fn exact_coverage_returns_whole_input() {
    // data_size = 16, target 17 > 16: full path by size. But data_size 16
    // with target 16: data_size <= target, also full.
    let data: Vec<u8> = (0u8..16).collect();
    let sampler = UniformSampler;
    let result = sampler.sample(&data, 16);
    assert_eq!(result.data, data);
    assert_eq!(result.metadata.method, "full");
}
