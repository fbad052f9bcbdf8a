use poke::keystream::apply_keystream;

#[test]
fn keystream_of_zero_bytes_is_the_shake256_output() {
    // SHAKE256 of the empty input begins 46 b9 dd 2b 0b a8 8d 13.
    let pad = apply_keystream(b"", &[0u8; 8]);
    assert_eq!(pad, vec![0x46, 0xb9, 0xdd, 0x2b, 0x0b, 0xa8, 0x8d, 0x13]);
}

#[test]
fn keystream_xors_the_message() {
    let pad = apply_keystream(b"", &[0u8; 4]);
    let encrypted = apply_keystream(b"", &[0xff, 0x00, 0x0f, 0xf0]);
    assert_eq!(encrypted, vec![pad[0] ^ 0xff, pad[1], pad[2] ^ 0x0f, pad[3] ^ 0xf0]);
}

#[test]
fn decryption_undoes_encryption() {
    let key_material = b"the shared secret curve";
    let message = b"a message of some length".to_vec();
    let encrypted = apply_keystream(key_material, &message);
    assert_eq!(encrypted.len(), message.len());
    assert_ne!(encrypted, message);
    assert_eq!(apply_keystream(key_material, &encrypted), message);
    assert_ne!(apply_keystream(b"another secret", &encrypted), message);
}

#[test]
fn empty_message_stays_empty() {
    assert!(apply_keystream(b"key", &[]).is_empty());
}
