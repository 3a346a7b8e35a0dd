use mazecode::encode::encode_data;

#[test]
fn encodes_sample_text() {
    let (bytes, version) = encode_data(b"Lorem Ipsum Dolor Sit Amet").unwrap();
    assert_eq!(
        bytes,
        vec![
            65, 164, 198, 247, 38, 86, 210, 4, 151, 7, 55, 86, 210, 4, 70, 246, 198, 247, 34, 5,
            54, 151, 66, 4, 22, 214, 87, 64
        ]
    );
    assert_eq!(version.number(), 6);
}

#[test]
fn encodes_empty_input() {
    let (bytes, version) = encode_data(b"").unwrap();
    // mode 0100, count 00000000, terminator 0000
    assert_eq!(bytes, vec![0x40, 0x00]);
    assert_eq!(version.number(), 1);
}

#[test]
fn encoded_length_is_header_data_and_terminator() {
    for n in [0usize, 1, 5, 17, 40] {
        let data = vec![0xAAu8; n];
        let (bytes, _) = encode_data(&data).unwrap();
        assert_eq!(bytes.len(), n + 2);
    }
}

#[test]
fn encodes_repeated_letter() {
    let (bytes, version) = encode_data(&[0x41; 20]).unwrap();
    let mut expected = vec![65, 68];
    expected.extend(std::iter::repeat(20u8).take(19));
    expected.push(16);
    assert_eq!(bytes, expected);
    assert_eq!(version.number(), 5);
}

#[test]
fn second_group_version_is_counted_from_its_start() {
    // 100 bytes need 204 data codewords: more than any version of the first
    // group holds; in the second group version 15 is the first that does,
    // the sixth version of the group.
    let (bytes, version) = encode_data(&[0u8; 100]).unwrap();
    assert_eq!(bytes.len(), 103);
    assert_eq!(&bytes[..3], &[0x40, 0x06, 0x40]);
    assert_eq!(version.number(), 6);
}

#[test]
fn longest_accepted_input_is_encoded() {
    let (bytes, version) = encode_data(&[0xFFu8; 255]).unwrap();
    assert_eq!(bytes.len(), 258);
    assert_eq!(version.number(), 16);
}
