use xor_encoder::entropy::{entropy_bits, entropy_score};
use xor_encoder::search::{select_key, smart_xor_encode};
use xor_encoder::xor::xor_transform;

const SCALE: u64 = 65536;

#[test]
fn entropy_of_empty_buffer_is_zero() {
    let empty: Vec<u8> = Vec::new();
    assert_eq!(entropy_score(&empty), 0);
    assert_eq!(entropy_bits(&empty), 0);
}

#[test]
fn entropy_of_constant_buffer_is_zero() {
    let buf = vec![0x90u8; 100];
    assert_eq!(entropy_score(&buf), 0);
    assert_eq!(entropy_bits(&buf), 0);
    let single = vec![0x41u8];
    assert_eq!(entropy_bits(&single), 0);
}

#[test]
fn entropy_of_two_equal_halves_is_one_bit() {
    let mut buf = vec![0xAAu8; 10];
    buf.extend(vec![0x55u8; 10]);
    assert_eq!(entropy_bits(&buf), SCALE);
}

#[test]
fn entropy_of_four_equal_values_is_two_bits() {
    let mut buf: Vec<u8> = Vec::new();
    for v in 0u8..4 {
        for _ in 0..5 {
            buf.push(v);
        }
    }
    assert_eq!(entropy_bits(&buf), 2 * SCALE);
}

#[test]
fn entropy_of_all_byte_values_is_eight_bits() {
    let buf: Vec<u8> = (0u8..=255).collect();
    assert_eq!(entropy_bits(&buf), 8 * SCALE);
}

#[test]
fn entropy_is_deterministic() {
    let buf = vec![3u8, 1, 4, 1, 5, 9, 2, 6, 5, 3, 5];
    assert_eq!(entropy_score(&buf), entropy_score(&buf));
    assert_eq!(entropy_bits(&buf), entropy_bits(&buf));
}

#[test]
fn entropy_stays_within_eight_bits() {
    let buf = vec![3u8, 1, 4, 1, 5, 9, 2, 6, 5, 3, 5, 8, 9, 7, 9, 3];
    assert!(entropy_bits(&buf) <= 8 * SCALE);
}

#[test]
fn entropy_is_invariant_under_xor() {
    let mut buf = vec![0x90u8; 40];
    buf.extend(vec![0x00u8, 0x01, 0x02, 0x90, 0x90, 0xFF]);
    let base = entropy_score(&buf);
    for key in 1..=255u8 {
        let transformed = xor_transform(&buf, key);
        assert_eq!(entropy_score(&transformed), base);
    }
}

#[test]
fn xor_transform_round_trips() {
    let buf = vec![0xDEu8, 0xAD, 0xBE, 0xEF, 0x00, 0x90, 0x41];
    for key in 1..=255u8 {
        let once = xor_transform(&buf, key);
        let twice = xor_transform(&once, key);
        assert_eq!(twice, buf);
    }
}

#[test]
fn encode_round_trips_with_returned_key() {
    let buf = vec![0x90u8, 0x90, 0x90, 0x31, 0xC0, 0x50, 0x68];
    let (encoded, key) = smart_xor_encode(&buf, 256);
    assert!((1..=255).contains(&key));
    let decoded = xor_transform(&encoded, key);
    assert_eq!(decoded, buf);
}

#[test]
fn empty_payload_yields_empty_buffer_and_valid_key() {
    let empty: Vec<u8> = Vec::new();
    let (encoded, key) = smart_xor_encode(&empty, 256);
    assert!(encoded.is_empty());
    assert!((1..=255).contains(&key));
}

#[test]
fn empty_payload_keeps_the_first_sampled_key() {
    let empty: Vec<u8> = Vec::new();
    let keys = vec![5u8, 9, 9, 200];
    let (encoded, key) = select_key(&empty, &keys);
    assert!(encoded.is_empty());
    assert_eq!(key, 5);
}

#[test]
fn single_byte_payload_ties_at_zero_and_keeps_first_key() {
    let buf = vec![0x41u8];
    for key in 1..=255u8 {
        assert_eq!(entropy_bits(&xor_transform(&buf, key)), 0);
    }
    let keys = vec![3u8, 7, 2];
    let (encoded, key) = select_key(&buf, &keys);
    assert_eq!(key, 3);
    assert_eq!(encoded, vec![0x41u8 ^ 3]);
}

#[test]
fn four_zero_bytes_give_constant_buffers_and_first_key_wins() {
    let buf = vec![0u8, 0, 0, 0];
    for key in 1..=255u8 {
        let transformed = xor_transform(&buf, key);
        assert_eq!(transformed, vec![key; 4]);
        assert_eq!(entropy_bits(&transformed), 0);
    }
    let keys = vec![42u8, 17, 233];
    let (encoded, key) = select_key(&buf, &keys);
    assert_eq!(key, 42);
    assert_eq!(encoded, vec![42u8; 4]);
    let (encoded_rand, key_rand) = smart_xor_encode(&buf, 256);
    assert_eq!(encoded_rand, vec![key_rand; 4]);
}

#[test]
fn all_byte_values_tie_at_eight_bits_and_first_key_wins() {
    let buf: Vec<u8> = (0u8..=255).collect();
    for key in 1..=255u8 {
        assert_eq!(entropy_bits(&xor_transform(&buf, key)), 8 * SCALE);
    }
    let keys = vec![9u8, 200, 3];
    let (_, key) = select_key(&buf, &keys);
    assert_eq!(key, 9);
}

#[test]
fn exhaustive_sweep_matches_the_brute_force_oracle() {
    let mut payload = vec![0x90u8; 100];
    payload.extend(vec![0x01u8, 0x17, 0x2A, 0x3C, 0x4E, 0x55, 0x60, 0x7F, 0x83, 0x9D]);

    let mut best_score = u128::MAX;
    let mut best_key = 0u8;
    for key in 1..=255u8 {
        let score = entropy_score(&xor_transform(&payload, key));
        if score < best_score {
            best_score = score;
            best_key = key;
        }
    }

    let all_keys: Vec<u8> = (1u8..=255).collect();
    let (encoded, key) = select_key(&payload, &all_keys);
    assert_eq!(key, best_key);
    assert_eq!(entropy_score(&encoded), best_score);
    assert_eq!(xor_transform(&encoded, key), payload);
}

#[test]
fn random_search_never_beats_the_oracle_minimum() {
    let mut payload = vec![0x90u8; 100];
    payload.extend(vec![0x01u8, 0x17, 0x2A, 0x3C, 0x4E, 0x55, 0x60, 0x7F, 0x83, 0x9D]);

    let mut oracle = u128::MAX;
    for key in 1..=255u8 {
        let score = entropy_score(&xor_transform(&payload, key));
        if score < oracle {
            oracle = score;
        }
    }

    let (encoded, key) = smart_xor_encode(&payload, 256);
    assert!((1..=255).contains(&key));
    assert!(entropy_score(&encoded) >= oracle);
    assert_eq!(xor_transform(&encoded, key), payload);
}
