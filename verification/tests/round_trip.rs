use rle::{decode, encode, DecodeError, MAX_RUN_LENGTH};

fn round_trip(data: &[u8]) -> Result<Vec<u8>, DecodeError> {
    decode(encode(data.to_vec()))
}

/// Whether no run that is written with a length byte is followed by a byte of
/// the value of that length byte.
fn is_unambiguous(data: &[u8]) -> bool {
    let mut start = 0;
    while start < data.len() {
        let mut len = 1;
        while len < MAX_RUN_LENGTH && start + len < data.len() && data[start + len] == data[start] {
            len += 1;
        }
        let next = start + len;
        if len >= 2 && next < data.len() && usize::from(data[next]) == len - 2 {
            return false;
        }
        start = next;
    }
    true
}

#[test]
fn round_trip_empty() {
    assert_eq!(round_trip(&[]), Ok(vec![]));
}

#[test]
fn round_trip_single_byte() {
    for value in 0..=255u8 {
        assert_eq!(round_trip(&[value]), Ok(vec![value]));
    }
}

#[test]
fn round_trip_all_distinct() {
    let data: Vec<u8> = (0..=255).collect();
    assert_eq!(round_trip(&data), Ok(data.clone()));
    let data: Vec<u8> = (0..=255).rev().collect();
    assert_eq!(round_trip(&data), Ok(data.clone()));
}

#[test]
fn round_trip_all_identical() {
    for len in [1usize, 2, 3, 100, 255, 256, 257, 258, 259, 513, 514, 515, 1000] {
        for value in [0u8, 1, 7, 128, 254] {
            let data = vec![value; len];
            assert_eq!(round_trip(&data), Ok(data.clone()));
        }
    }
}

#[test]
fn round_trip_runs_at_the_limit() {
    for len in [1usize, 2, 256, 257, 258] {
        let mut data = vec![3u8, 4];
        data.extend(vec![9u8; len]);
        data.extend([11u8, 12, 12, 12]);
        assert!(is_unambiguous(&data));
        assert_eq!(round_trip(&data), Ok(data.clone()));
    }
}

#[test]
fn round_trip_first_byte_at_the_boundaries() {
    for data in [
        vec![255u8, 254, 255],
        vec![255, 255, 255, 7],
        vec![0, 1, 0],
        vec![0, 0, 0, 0, 7],
        vec![254, 255, 255, 1],
    ] {
        assert_eq!(round_trip(&data), Ok(data.clone()));
    }
}

#[test]
fn round_trip_mixed() {
    let data = vec![1u8, 1, 2, 3, 3, 3, 4, 5, 5, 5, 5, 5, 5, 6];
    assert!(is_unambiguous(&data));
    assert_eq!(encode(data.clone()), vec![1, 1, 0, 2, 3, 3, 1, 4, 5, 5, 4, 6]);
    assert_eq!(round_trip(&data), Ok(data.clone()));
}

#[test]
fn run_followed_by_its_length_byte_is_ambiguous() {
    // The encoding is [5, 5, 0, 0]: the last byte equals the length byte
    // before it, so the decoder takes it for a marker.
    assert!(!is_unambiguous(&[5, 5, 0]));
    assert_eq!(encode(vec![5, 5, 0]), vec![5, 5, 0, 0]);
    assert_eq!(round_trip(&[5, 5, 0]), Err(DecodeError::TruncatedMarker));

    assert!(!is_unambiguous(&[5, 5, 5, 1, 7]));
    assert_eq!(encode(vec![5, 5, 5, 1, 7]), vec![5, 5, 1, 1, 7]);
    assert_eq!(round_trip(&[5, 5, 5, 1, 7]), Ok(vec![5, 5, 5, 1, 1, 1, 1, 1, 1, 1, 1]));
}

#[test]
fn split_run_of_255_is_ambiguous() {
    let data = vec![255u8; 258];
    assert!(!is_unambiguous(&data));
    assert_eq!(encode(data.clone()), vec![255, 255, 255, 255]);
    assert_eq!(round_trip(&data), Err(DecodeError::TruncatedMarker));
}

#[test]
fn round_trip_holds_exactly_on_unambiguous_short_inputs() {
    // Every input of up to 9 bytes over the values 0 to 3.
    for len in 0..=9u32 {
        for code in 0..4u32.pow(len) {
            let mut data = Vec::new();
            let mut rest = code;
            for _ in 0..len {
                data.push((rest % 4) as u8);
                rest /= 4;
            }
            let back = round_trip(&data);
            assert_eq!(back == Ok(data.clone()), is_unambiguous(&data), "{:?}", data);
        }
    }
}

#[test]
fn round_trip_holds_exactly_on_unambiguous_long_runs() {
    // Two or three runs whose lengths lie around the limit, over values that
    // can collide with a length byte.
    let values = [0u8, 1, 253, 254, 255];
    let lens = [1usize, 2, 3, 255, 256, 257, 258, 259, 514, 515];
    for &a in &values {
        for &b in &values {
            for &c in &values {
                if a == b || b == c {
                    continue;
                }
                for &la in &lens {
                    for &lb in &lens {
                        for &lc in &[0usize, 1, 2, 257] {
                            let mut data = vec![a; la];
                            data.extend(vec![b; lb]);
                            data.extend(vec![c; lc]);
                            let back = round_trip(&data);
                            assert_eq!(
                                back == Ok(data.clone()),
                                is_unambiguous(&data),
                                "{} x {}, {} x {}, {} x {}",
                                a, la, b, lb, c, lc
                            );
                        }
                    }
                }
            }
        }
    }
}
