use raid_ii::hamming_encoding::{
    bit_vector_from_bytes, bit_vector_to_bytes, bit_vector_to_string, decode, encode,
    HammingDecodeResult,
};

// Tests for Bin vector

#[test]
fn from_bytes_test() {
    let byte_data = vec![1; 4];
    let vector = bit_vector_from_bytes(&byte_data);
    assert_eq!(vector.len(), 4 * 8);
    for i in 0..vector.len() {
        if (i + 1) % 8 == 0 {
            assert_eq!(vector[i], true)
        } else {
            assert_eq!(vector[i], false)
        }
    }
}

#[test]
fn to_bytes_test() {
    let byte_data = vec![1; 10];
    let vector = bit_vector_from_bytes(&byte_data);
    let new_bytes = bit_vector_to_bytes(&vector);
    assert_eq!(byte_data, new_bytes);
}

#[test]
fn to_string_test() {
    let byte_data = vec![0b00001110];
    let vector = bit_vector_from_bytes(&byte_data);
    let str = bit_vector_to_string(&vector);
    assert_eq!(str, "00001110")
}

// Tests for Hamming Code
#[test]
fn encode_test() {
    let bytes = vec![0b11110000];
    let vector = bit_vector_from_bytes(&bytes);
    let encoded_bits = encode(&vector);
    let str_result = bit_vector_to_string(&encoded_bits);
    assert_eq!(encoded_bits.len(), 13);
    assert_eq!(str_result, "1111111100000");
}

#[test]
fn decode_no_errors_test() {
    let bytes = vec![0b11110000];
    let vector = bit_vector_from_bytes(&bytes);
    let mut encoded_bits = encode(&vector);
    let decoded_bits = match decode(&mut encoded_bits) {
        HammingDecodeResult::NoError { decoded_bits } => decoded_bits,
        _ => unreachable!(),
    };
    let str_result = bit_vector_to_string(&decoded_bits);
    assert_eq!(decoded_bits.len(), 8);
    assert_eq!(str_result, "11110000");
}

#[test]
fn decode_one_error_test1() {
    let bytes = vec![0b11110000];
    let vector = bit_vector_from_bytes(&bytes);
    let mut encoded_bits = encode(&vector);
    let error_position = 3;
    encoded_bits[error_position] = !encoded_bits[error_position];
    let decoded_bits = match decode(&mut encoded_bits) {
        HammingDecodeResult::OneError {
            position,
            decoded_bits,
        } => {
            assert_eq!(position, error_position);
            decoded_bits
        }
        _ => unreachable!(),
    };
    let str_result = bit_vector_to_string(&decoded_bits);
    assert_eq!(decoded_bits.len(), 8);
    assert_eq!(str_result, "11110000");
}

#[test]
fn decode_one_error_test2() {
    let bytes = vec![0b11110000];
    let vector = bit_vector_from_bytes(&bytes);
    let mut encoded_bits = encode(&vector);
    let error_position = 0;
    encoded_bits[error_position] = !encoded_bits[error_position];
    let decoded_bits = match decode(&mut encoded_bits) {
        HammingDecodeResult::OneError {
            position,
            decoded_bits,
        } => {
            assert_eq!(position, error_position);
            decoded_bits
        }
        _ => unreachable!(),
    };
    let str_result = bit_vector_to_string(&decoded_bits);
    assert_eq!(decoded_bits.len(), 8);
    assert_eq!(str_result, "11110000");
}

#[test]
fn decode_two_error_test() {
    let bytes = vec![0b11110000];
    let vector = bit_vector_from_bytes(&bytes);
    let mut encoded_bits = encode(&vector);
    encoded_bits[0] = !encoded_bits[0];
    encoded_bits[1] = !encoded_bits[1];
    match decode(&mut encoded_bits) {
        HammingDecodeResult::DoubleError => assert!(true),
        _ => assert!(false),
    };
}

fn byte_bits(byte: u8) -> Vec<bool> {
    bit_vector_from_bytes(&vec![byte])
}

#[test]
fn every_byte_round_trips() {
    for byte in 0..=255u8 {
        let data = byte_bits(byte);
        let mut codeword = encode(&data);
        assert_eq!(codeword.len(), 13);
        let before = codeword.clone();
        match decode(&mut codeword) {
            HammingDecodeResult::NoError { decoded_bits } => assert_eq!(decoded_bits, data),
            _ => panic!("byte {} did not decode cleanly", byte),
        }
        assert_eq!(codeword, before);
    }
}

#[test]
fn every_single_error_is_corrected() {
    for byte in 0..=255u8 {
        let data = byte_bits(byte);
        let codeword = encode(&data);
        for p in 0..codeword.len() {
            let mut damaged = codeword.clone();
            damaged[p] = !damaged[p];
            match decode(&mut damaged) {
                HammingDecodeResult::OneError {
                    position,
                    decoded_bits,
                } => {
                    assert_eq!(position, p);
                    assert_eq!(decoded_bits, data);
                }
                _ => panic!("byte {} position {} not corrected", byte, p),
            }
            assert_eq!(damaged, codeword);
        }
    }
}

#[test]
fn every_double_error_is_detected() {
    for byte in 0..=255u8 {
        let codeword = encode(&byte_bits(byte));
        for p in 0..codeword.len() {
            for q in (p + 1)..codeword.len() {
                let mut damaged = codeword.clone();
                damaged[p] = !damaged[p];
                damaged[q] = !damaged[q];
                let kept = damaged.clone();
                assert!(matches!(decode(&mut damaged), HammingDecodeResult::DoubleError));
                assert_eq!(damaged, kept);
            }
        }
    }
}

#[test]
fn triple_error_pointing_outside_is_uncorrectable() {
    // Flipping positions 5, 6 and 12 gives checks that point at 15.
    let mut codeword = encode(&byte_bits(0));
    for p in [5usize, 6, 12] {
        codeword[p] = !codeword[p];
    }
    let kept = codeword.clone();
    assert!(matches!(decode(&mut codeword), HammingDecodeResult::DoubleError));
    assert_eq!(codeword, kept);
}

#[test]
fn encode_zero_byte() {
    let encoded = encode(&byte_bits(0));
    assert_eq!(bit_vector_to_string(&encoded), "0000000000000");
}

#[test]
fn encode_all_ones_byte() {
    // Checks 1 and 2 each cover five set data bits, checks 4 and 8 four;
    // ten bits are then set, so the overall parity bit is clear.
    let encoded = encode(&byte_bits(0xFF));
    assert_eq!(bit_vector_to_string(&encoded), "0111011101111");
}

#[test]
fn encode_other_lengths() {
    assert_eq!(encode(&vec![]), vec![false]);
    let one = encode(&vec![true]);
    assert_eq!(bit_vector_to_string(&one), "1111");
    let four = encode(&vec![true, false, true, true]);
    assert_eq!(four.len(), 8);
    assert_eq!(bit_vector_to_string(&four), "00110011");
}

#[test]
fn decode_empty_word() {
    let mut empty: Vec<bool> = vec![];
    match decode(&mut empty) {
        HammingDecodeResult::NoError { decoded_bits } => assert!(decoded_bits.is_empty()),
        _ => panic!("empty word is clean"),
    }
}

#[test]
fn bits_of_bytes_are_msb_first() {
    let bits = bit_vector_from_bytes(&vec![0b1000_0001, 0b0100_0000]);
    assert_eq!(bit_vector_to_string(&bits), "1000000101000000");
    assert!(bit_vector_from_bytes(&vec![]).is_empty());
}

#[test]
fn every_byte_converts_back() {
    let all: Vec<u8> = (0..=255u8).collect();
    assert_eq!(bit_vector_to_bytes(&bit_vector_from_bytes(&all)), all);
}

#[test]
fn partial_trailing_bits_give_zero_byte() {
    let bits = vec![true, false, true, false, true, false, true, false, true, true];
    assert_eq!(bit_vector_to_bytes(&bits), vec![0b1010_1010, 0]);
    assert_eq!(bit_vector_to_bytes(&vec![]), Vec::<u8>::new());
}

#[test]
fn string_of_empty_bits() {
    assert_eq!(bit_vector_to_string(&vec![]), "");
    assert_eq!(bit_vector_to_string(&vec![true, false]), "10");
}
