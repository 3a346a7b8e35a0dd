use mazecode::encode::encode_data;
use mazecode::score::{calculate_score, improve_padding};
use mazecode::versions::{find_version_with_data_capacity, version_groups};

fn flipped(padding: &[u8], i: usize) -> Vec<u8> {
    let mut p = padding.to_vec();
    p[i / 8] ^= 0x80 >> (i % 8);
    p
}

#[test]
fn score_of_empty_message() {
    let (data, version) = encode_data(b"").unwrap();
    assert_eq!(calculate_score(&data, &[0; 7], version), -260);
    assert_eq!(
        calculate_score(&data, &[0x12, 0x34, 0x56, 0x78, 0x9a, 0xbc, 0xde], version),
        -280
    );
}

#[test]
fn score_of_version_five_symbol() {
    let v = find_version_with_data_capacity(46, version_groups()[0].range).unwrap();
    assert_eq!(v.number(), 5);
    let data: Vec<u8> = (100..146).collect();
    assert_eq!(calculate_score(&data, &[], v), -1350);
}

#[test]
fn score_is_a_nonpositive_multiple_of_ten() {
    let (data, version) = encode_data(b"abc").unwrap();
    for seed in 0u8..8 {
        let padding: Vec<u8> = (0..version.data_codewords() - data.len())
            .map(|i| (i as u8).wrapping_mul(37).wrapping_add(seed.wrapping_mul(101)))
            .collect();
        let s = calculate_score(&data, &padding, version);
        assert!(s <= 0);
        assert_eq!(s % 10, 0);
    }
}

#[test]
fn improve_padding_from_zeros() {
    let (data, version) = encode_data(b"").unwrap();
    let mut padding = vec![0u8; 7];
    let score = improve_padding(&data, &mut padding, version);
    assert_eq!(padding, vec![0, 0, 16, 0, 0, 10, 0]);
    assert_eq!(score, -100);
}

#[test]
fn improve_padding_takes_the_best_flip() {
    let (data, version) = encode_data(b"").unwrap();
    let mut padding = vec![0x12, 0x34, 0x56, 0x78, 0x9a, 0xbc, 0xde];
    let score = improve_padding(&data, &mut padding, version);
    assert_eq!(padding, vec![0x12, 0x34, 0x56, 0x78, 0x9a, 0x7c, 0xde]);
    assert_eq!(score, -120);
}

#[test]
fn improved_padding_is_a_local_optimum() {
    let (data, version) = encode_data(b"").unwrap();
    let start = vec![0x12, 0x34, 0x56, 0x78, 0x9a, 0xbc, 0xde];
    let before = calculate_score(&data, &start, version);
    let mut padding = start.clone();
    let score = improve_padding(&data, &mut padding, version);
    assert_eq!(padding.len(), start.len());
    assert!(score >= before);
    assert_eq!(score, calculate_score(&data, &padding, version));
    for i in 0..8 * padding.len() {
        assert!(calculate_score(&data, &flipped(&padding, i), version) <= score);
    }
}

#[test]
fn improve_padding_without_padding_keeps_score() {
    let v = find_version_with_data_capacity(9, version_groups()[0].range).unwrap();
    let data: Vec<u8> = (1..=9).collect();
    let mut padding = Vec::new();
    let score = improve_padding(&data, &mut padding, v);
    assert!(padding.is_empty());
    assert_eq!(score, calculate_score(&data, &[], v));
}
