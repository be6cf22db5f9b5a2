use duma::chunks::chunk_offsets;

#[test]
fn content_is_cut_into_whole_chunks() {
    assert_eq!(chunk_offsets(3000, 1000), vec![(0, 999), (1000, 1999), (2000, 3000)]);
}

#[test]
fn the_last_chunk_takes_the_rest() {
    assert_eq!(chunk_offsets(2500, 1000), vec![(0, 999), (1000, 2500)]);
    assert_eq!(chunk_offsets(1999, 1000), vec![(0, 1999)]);
    assert_eq!(chunk_offsets(2_500_000, 1_024_000), vec![(0, 1_023_999), (1_024_000, 2_500_000)]);
}

#[test]
fn little_content_is_one_chunk() {
    assert_eq!(chunk_offsets(0, 1000), vec![(0, 0)]);
    assert_eq!(chunk_offsets(999, 1000), vec![(0, 999)]);
    assert_eq!(chunk_offsets(1000, 1000), vec![(0, 1000)]);
}

#[test]
fn chunks_touch_and_hold_the_file() {
    for (ct_len, chunk_size) in [(0u64, 1u64), (1, 1), (7, 3), (100, 7), (4096, 1024), (5, 9)] {
        let offsets = chunk_offsets(ct_len, chunk_size);
        assert_eq!(offsets[0].0, 0);
        assert_eq!(offsets[offsets.len() - 1].1, ct_len);
        let mut total: u64 = 0;
        for (i, pair) in offsets.iter().enumerate() {
            assert!(pair.0 <= pair.1);
            if i > 0 {
                assert_eq!(pair.0, offsets[i - 1].1 + 1);
            }
            if i + 1 < offsets.len() {
                assert_eq!(pair.1 - pair.0 + 1, chunk_size);
            }
            total += pair.1 - pair.0 + 1;
        }
        assert_eq!(total, ct_len + 1);
        for offset in 0..=ct_len {
            let holding = offsets.iter().filter(|pair| pair.0 <= offset && offset <= pair.1);
            assert_eq!(holding.count(), 1);
        }
    }
}
