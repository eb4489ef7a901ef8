use workpool::hist::{ascii_frequency, chunked_freq_count, merge_freq};

#[test]
fn counts_each_byte() {
    let freq = ascii_frequency(b"hello world");
    assert_eq!(freq.len(), 128);
    assert_eq!(freq[b'l' as usize], 3);
    assert_eq!(freq[b'o' as usize], 2);
    assert_eq!(freq[b'h' as usize], 1);
    assert_eq!(freq[b' ' as usize], 1);
    assert_eq!(freq[b'z' as usize], 0);
}

#[test]
fn empty_input_counts_nothing() {
    let freq = ascii_frequency(b"");
    assert!(freq.iter().all(|&n| n == 0));
}

#[test]
fn merge_adds_entry_by_entry() {
    let a = ascii_frequency(b"aab");
    let b = ascii_frequency(b"abc");
    let mut acc = a.clone();
    merge_freq(&mut acc, &b);
    assert_eq!(acc[b'a' as usize], 3);
    assert_eq!(acc[b'b' as usize], 2);
    assert_eq!(acc[b'c' as usize], 1);
}

#[test]
fn chunked_count_equals_single_pass() {
    let data: Vec<u8> = (0..1000u32).map(|i| (i % 128) as u8).collect();
    let whole = ascii_frequency(&data);
    for size in [1usize, 3, 7, 100, 999, 1000, 5000] {
        let chunked = chunked_freq_count(&data, size);
        assert_eq!(chunked, whole);
    }
}

#[test]
fn chunked_count_on_empty_input() {
    let chunked = chunked_freq_count(b"", 4);
    assert!(chunked.iter().all(|&n| n == 0));
}

#[test]
fn chunked_count_input_smaller_than_chunk() {
    let chunked = chunked_freq_count(b"ab", 100);
    assert_eq!(chunked[b'a' as usize], 1);
    assert_eq!(chunked[b'b' as usize], 1);
}

#[test]
fn four_quarters_match_single_pass_count() {
    // pool of four: one job per quarter of a 4000-byte buffer, each counting
    // the byte 0x41, combined by summation
    let mut data = vec![0u8; 4000];
    for i in (0..4000).step_by(7) {
        data[i] = 0x41;
    }
    let direct = data.iter().filter(|&&b| b == 0x41).count();
    let mut combined = 0usize;
    for q in 0..4 {
        let part = ascii_frequency(&data[q * 1000..(q + 1) * 1000]);
        combined += part[0x41];
    }
    assert_eq!(combined, direct);
    let whole = ascii_frequency(&data);
    assert_eq!(whole[0x41], direct);
}
