use rle::{decode, DecodeError};

#[test]
fn decode_empty_is_empty() {
    assert_eq!(decode(Vec::new()), Ok(Vec::new()));
}

#[test]
fn decode_literals_are_themselves() {
    assert_eq!(decode(vec![5]), Ok(vec![5]));
    assert_eq!(decode(vec![1, 2, 3, 4, 5]), Ok(vec![1, 2, 3, 4, 5]));
}

#[test]
fn decode_run_record() {
    assert_eq!(decode(vec![5, 5, 3]), Ok(vec![5, 5, 5, 5, 5]));
}

#[test]
fn decode_length_byte_zero_is_a_pair() {
    assert_eq!(decode(vec![9, 9, 0]), Ok(vec![9, 9]));
}

#[test]
fn decode_length_byte_255_is_257_bytes() {
    assert_eq!(decode(vec![9, 9, 255]), Ok(vec![9; 257]));
}

#[test]
fn decode_records_in_a_row() {
    assert_eq!(decode(vec![1, 1, 0, 2, 3, 3, 1]), Ok(vec![1, 1, 2, 3, 3, 3]));
    assert_eq!(decode(vec![7, 7, 255, 7]), Ok(vec![7; 258]));
    assert_eq!(decode(vec![7, 7, 255, 7, 7, 0]), Ok(vec![7; 259]));
}

#[test]
fn decode_first_byte_max_is_not_a_marker() {
    assert_eq!(decode(vec![255]), Ok(vec![255]));
    assert_eq!(decode(vec![255, 254]), Ok(vec![255, 254]));
    assert_eq!(decode(vec![255, 1, 2]), Ok(vec![255, 1, 2]));
    assert_eq!(decode(vec![255, 255, 1]), Ok(vec![255, 255, 255]));
}

#[test]
fn decode_first_byte_min_is_not_a_marker() {
    assert_eq!(decode(vec![0]), Ok(vec![0]));
    assert_eq!(decode(vec![0, 1]), Ok(vec![0, 1]));
    assert_eq!(decode(vec![0, 0, 2]), Ok(vec![0, 0, 0, 0]));
}

#[test]
fn decode_first_byte_next_to_max_is_not_a_marker() {
    assert_eq!(decode(vec![254]), Ok(vec![254]));
    assert_eq!(decode(vec![254, 255]), Ok(vec![254, 255]));
    assert_eq!(decode(vec![1, 0]), Ok(vec![1, 0]));
}

#[test]
fn decode_every_first_byte_stands_for_itself() {
    for first in 0..=255u8 {
        let other = first.wrapping_add(1);
        assert_eq!(decode(vec![first, other]), Ok(vec![first, other]));
        let other = first.wrapping_sub(1);
        assert_eq!(decode(vec![first, other]), Ok(vec![first, other]));
    }
}

#[test]
fn decode_marker_without_length_byte_fails() {
    assert_eq!(decode(vec![5, 5]), Err(DecodeError::TruncatedMarker));
    assert_eq!(decode(vec![1, 2, 2]), Err(DecodeError::TruncatedMarker));
    assert_eq!(decode(vec![5, 5, 3, 4, 4]), Err(DecodeError::TruncatedMarker));
}

#[test]
fn decode_length_byte_is_not_tested_for_a_marker() {
    // The third byte is a length byte, although it equals the second.
    assert_eq!(decode(vec![5, 5, 5]), Ok(vec![5; 7]));
    assert_eq!(decode(vec![0, 0, 0]), Ok(vec![0, 0]));
}

#[test]
fn decode_byte_equal_to_length_byte_before_it_is_a_marker() {
    assert_eq!(decode(vec![5, 5, 0, 0, 3]), Ok(vec![5, 5, 0, 0, 0, 0]));
    assert_eq!(decode(vec![5, 5, 5, 5]), Err(DecodeError::TruncatedMarker));
    assert_eq!(decode(vec![5, 5, 0, 0]), Err(DecodeError::TruncatedMarker));
}

#[test]
fn decode_error_can_be_copied_and_compared() {
    let error = DecodeError::TruncatedMarker;
    let copy = error;
    assert_eq!(error, copy);
    assert_eq!(format!("{:?}", error), "TruncatedMarker");
}

#[test]
fn decode_fails_only_where_the_last_two_bytes_are_equal() {
    // Every input of up to 8 bytes over the values 0 to 2.
    for len in 0..=8u32 {
        for code in 0..3u32.pow(len) {
            let mut data = Vec::new();
            let mut rest = code;
            for _ in 0..len {
                data.push((rest % 3) as u8);
                rest /= 3;
            }
            if decode(data.clone()).is_err() {
                assert!(data.len() >= 2);
                assert_eq!(data[data.len() - 1], data[data.len() - 2]);
            }
        }
    }
}

#[test]
fn decode_writes_at_most_128_bytes_for_each_byte_read() {
    assert_eq!(decode(vec![1, 1, 255, 255, 255]), Ok([vec![1; 257], vec![255; 256]].concat()));
    for data in [
        vec![1u8],
        vec![1, 1, 255],
        vec![1, 1, 255, 255, 255],
        vec![255, 255, 255, 255, 255, 255, 255],
        vec![3, 3, 200, 4, 4, 100],
    ] {
        let len = data.len();
        let decoded = decode(data).unwrap();
        assert!(decoded.len() <= 128 * len);
    }
}
