use xorcrib::{bytes_to_hex, decrypt, derive_key, hex_to_bytes};

#[test]
fn letter_xor_marks_the_position_known() {
    // Plaintexts 'D' (0x44) and ' ' (0x20) under key byte 0x05 give
    // ciphertexts 0x41 and 0x25; their XOR 0x64 lands in a letter range,
    // so the candidate 0x41 ^ 0x20 = 0x61 is recorded. The heuristic
    // yields a candidate, not the true key byte 0x05.
    let cts = vec![hex_to_bytes("41").unwrap(), hex_to_bytes("25").unwrap()];
    let (key, known) = derive_key(&cts);
    assert_eq!(key, vec![0x61]);
    assert_eq!(known, vec![true]);
}

#[test]
fn empty_collection_gives_empty_results() {
    let cts: Vec<Vec<u8>> = Vec::new();
    let (key, known) = derive_key(&cts);
    assert_eq!(key, Vec::<u8>::new());
    assert_eq!(known, Vec::<bool>::new());
}

#[test]
fn singleton_collection_stays_unknown() {
    let cts = vec![vec![0x41, 0x42, 0x43]];
    let (key, known) = derive_key(&cts);
    assert_eq!(key, vec![0, 0, 0]);
    assert_eq!(known, vec![false, false, false]);
}

#[test]
fn positions_past_the_shorter_ciphertext_are_never_paired() {
    // An all-zero probe of length 4 and a shorter ciphertext: only offsets
    // below the shorter length are compared, so positions 1..4 stay unknown.
    let cts = vec![vec![0x00, 0x00, 0x00, 0x00], vec![0x61, 0x00]];
    let (key, known) = derive_key(&cts);
    assert_eq!(known, vec![true, false, false, false]);
    assert_eq!(key, vec![0x20, 0x00, 0x00, 0x00]);
}

#[test]
fn derivation_is_deterministic() {
    let cts = vec![
        hex_to_bytes("41fa").unwrap(),
        hex_to_bytes("2507").unwrap(),
        hex_to_bytes("00").unwrap(),
    ];
    let first = derive_key(&cts);
    let second = derive_key(&cts);
    assert_eq!(first, second);
}

#[test]
fn first_pair_wins_with_the_candidate_from_the_lower_index() {
    // All three pairs give letter evidence at offset 0; the first pair
    // (0, 1) decides, with the candidate from ciphertext 0, never from 1.
    let cts = vec![vec![0x41], vec![0x25], vec![0x61]];
    let (key, known) = derive_key(&cts);
    assert_eq!(known, vec![true]);
    assert_eq!(key, vec![0x41 ^ 0x20]);
    assert_ne!(key, vec![0x25 ^ 0x20]);
}

#[test]
fn adding_ciphertexts_adds_known_flags() {
    let cts1 = vec![vec![0x41]];
    let (_, known1) = derive_key(&cts1);
    assert_eq!(known1, vec![false]);

    let cts2 = vec![vec![0x41], vec![0x25]];
    let (_, known2) = derive_key(&cts2);
    assert_eq!(known2, vec![true]);
}

#[test]
fn known_value_is_kept_when_the_first_pair_stays() {
    // Only the pair (1, 2) gives evidence; the added ciphertext forms no
    // letter XOR with any other, so the key byte is unchanged.
    let cts1 = vec![vec![0xff], vec![0x41], vec![0x25]];
    let (key1, known1) = derive_key(&cts1);
    assert_eq!(known1, vec![true]);
    assert_eq!(key1, vec![0x61]);

    let mut cts2 = cts1.clone();
    cts2.push(vec![0x00]);
    let (key2, known2) = derive_key(&cts2);
    assert_eq!(known2, vec![true]);
    assert_eq!(key2, vec![0x61]);
}

#[test]
fn added_ciphertext_can_move_the_first_pair() {
    // With the added ciphertext, the pair (0, 3) gives evidence and comes
    // before (1, 2) in the walk, so the recorded candidate changes.
    let cts1 = vec![vec![0xff], vec![0x41], vec![0x25]];
    let (key1, _) = derive_key(&cts1);
    assert_eq!(key1, vec![0x61]);

    let mut cts2 = cts1.clone();
    cts2.push(vec![0xbe]);
    let (key2, known2) = derive_key(&cts2);
    assert_eq!(known2, vec![true]);
    assert_eq!(key2, vec![0xff ^ 0x20]);
}

#[test]
fn results_span_the_longest_ciphertext() {
    let cts = vec![vec![1, 2, 3], vec![0, 0]];
    let (key, known) = derive_key(&cts);
    assert_eq!(key.len(), 3);
    assert_eq!(known.len(), 3);
}

#[test]
fn derived_key_decrypts_every_ciphertext() {
    // Plaintexts "D A" and " B " under the key stream [5, 5, 5].
    let c1 = vec![0x41, 0x25, 0x44];
    let c2 = vec![0x25, 0x47, 0x25];
    let cts = vec![c1.clone(), c2.clone()];
    let (key, known) = derive_key(&cts);
    assert_eq!(known, vec![true, true, true]);
    assert_eq!(key, vec![0x61, 0x05, 0x64]);
    assert_eq!(bytes_to_hex(&key), "610564");
    assert_eq!(decrypt(&c1, &key).unwrap(), vec![0x20, 0x20, 0x20]);
    assert_eq!(decrypt(&c2, &key).unwrap(), vec![0x44, 0x42, 0x41]);
}
