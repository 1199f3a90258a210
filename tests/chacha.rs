use lattice_commitments::chacha_rng::ChaChaRng;

#[test]
fn test_chacha_rng() {
    let seed = [0u8; 32];
    let mut rng = ChaChaRng::from_seed(&seed);
    let sample = rng.get_bytes(33);
    println!("{:?}", sample);
}

#[test]
fn chacha_known_answer_zero_seed() {
    let seed = [0u8; 32];
    let mut rng = ChaChaRng::from_seed(&seed);
    assert_eq!(rng.round_count(), 12);
    let sample = rng.get_bytes(33);
    let expected: Vec<u8> = vec![
        241, 113, 164, 168, 30, 193, 251, 113, 222, 209, 35, 251, 41, 5, 21, 25, 159, 21, 100, 136,
        149, 45, 139, 148, 222, 119, 206, 118, 130, 154, 119, 148, 160,
    ];
    assert_eq!(sample, expected);
}

#[test]
fn chacha_first_word_is_first_state_word_plus_constant() {
    let seed = [0u8; 32];
    let mut rng = ChaChaRng::from_seed(&seed);
    // the first state word after the rounds, plus 1634760805, little-endian
    assert_eq!(rng.next_u32(), 2829349361u32);
}

#[test]
fn chacha_byte_interfaces_agree() {
    let seed: Vec<u8> = b"transcript".to_vec();
    let mut a = ChaChaRng::from_seed(&seed);
    let mut b = ChaChaRng::from_seed(&seed);
    let bytes = a.get_bytes(200);
    let mut filled = vec![0u8; 200];
    b.fill_bytes(&mut filled);
    assert_eq!(bytes, filled);
    let mut c = ChaChaRng::from_seed(&seed);
    let w = c.next_u64();
    let mut lo = [0u8; 8];
    lo.copy_from_slice(&bytes[0..8]);
    assert_eq!(w, u64::from_le_bytes(lo));
    let mut d = ChaChaRng::from_seed(&seed);
    for i in 0..200 {
        assert_eq!(d.get_byte(), bytes[i]);
    }
}

#[test]
fn chacha_blocks_continue_from_previous_state() {
    let seed = [7u8; 5];
    let mut rng = ChaChaRng::from_seed(&seed);
    let bytes = rng.get_bytes(128);
    assert_ne!(bytes[0..64], bytes[64..128]);
}

#[test]
fn chacha_round_count_changes_stream() {
    let seed = [0u8; 32];
    let mut a = ChaChaRng::with_rounds(&seed, 20);
    let mut b = ChaChaRng::from_seed(&seed);
    assert_eq!(a.round_count(), 20);
    assert_ne!(a.get_bytes(16), b.get_bytes(16));
}

#[test]
fn chacha_seed_is_hashed() {
    let mut a = ChaChaRng::from_seed(&[0u8; 32]);
    let mut b = ChaChaRng::from_seed(&[0u8; 31]);
    assert_ne!(a.get_bytes(32), b.get_bytes(32));
}
