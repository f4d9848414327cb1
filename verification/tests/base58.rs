use slot_lookup::base58::base58_decode;

#[test]
fn decode_system_identifier() {
    // 32 '1' characters stand for 32 zero bytes.
    let text: Vec<u8> = b"11111111111111111111111111111111".to_vec();
    let decoded = base58_decode(&text).expect("valid base-58");
    assert_eq!(decoded, vec![0u8; 32]);
}

#[test]
fn decode_rejects_bytes_outside_alphabet() {
    for bad in ["0", "O", "I", "l", "!", " ", "1x0", "++"] {
        assert!(base58_decode(&bad.as_bytes().to_vec()).is_none());
    }
}

#[test]
fn decode_known_values() {
    // An empty text stands for no bytes at all.
    assert_eq!(base58_decode(&b"".to_vec()).unwrap(), Vec::<u8>::new());
    // One leading '1' is one zero byte.
    assert_eq!(base58_decode(&b"1".to_vec()).unwrap(), vec![0u8]);
    // 'z' is the largest digit, 57.
    assert_eq!(base58_decode(&b"z".to_vec()).unwrap(), vec![57u8]);
    // "21" denotes 1 * 58 + 0 = 58.
    assert_eq!(base58_decode(&b"21".to_vec()).unwrap(), vec![58u8]);
    // "211" has no leading '1', so both trailing ones are digits: 58 * 58.
    assert_eq!(base58_decode(&b"211".to_vec()).unwrap(), vec![13u8, 36u8]);
}

#[test]
fn round_trip_through_reference_encoder() {
    // Identifier parsing round-trips: decoding what the reference encoder
    // wrote gives back the 32 bytes.
    let mut low = vec![0u8; 32];
    low[31] = 1;
    let mut high = vec![0u8; 32];
    high[0] = 1;
    let cases: Vec<Vec<u8>> = vec![
        vec![0u8; 32],
        vec![0xffu8; 32],
        (0u8..32).collect(),
        low,
        high,
    ];
    for bytes in cases {
        let text = bs58::encode(&bytes).into_string();
        let decoded = base58_decode(&text.into_bytes()).expect("alphabet");
        assert_eq!(decoded, bytes);
    }
}

#[test]
fn agrees_with_reference_decoder() {
    for text in ["", "1", "z", "Jf", "2NEpo7TZRRrLZSi2U", "11abc", "3mJr7AoUXx2Wqd"] {
        let ours = base58_decode(&text.as_bytes().to_vec()).unwrap();
        let theirs = bs58::decode(text).into_vec().unwrap();
        assert_eq!(ours, theirs);
    }
}
