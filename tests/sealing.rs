use aes_gcm::aead::{Aead, KeyInit};
use aes_gcm::{Aes256Gcm, Key, Nonce};
use last_position::apitypes::SetLastLocSecParams;
use last_position::ledger::{generate_new_log, set_log_token, Ledger};
use last_position::sealed::{accept_sealed, seal_point, time_block_bytes, MAX_SEALABLE_PAYLOAD};

fn key(b: u8) -> Vec<u8> {
    (0..32u8).map(|i| i.wrapping_mul(7).wrapping_add(b)).collect()
}

fn decode(text: &str) -> Vec<u8> {
    hex::decode(text).unwrap()
}

#[test]
fn time_block_is_seconds_then_nanos_little_endian() {
    let t = time_block_bytes(0x0102030405060708, 0x0a0b0c0d);
    assert_eq!(t, vec![8, 7, 6, 5, 4, 3, 2, 1, 0x0d, 0x0c, 0x0b, 0x0a]);
    assert_eq!(time_block_bytes(0, 0), vec![0u8; 12]);
}

#[test]
fn sealed_text_opens_with_the_key() {
    let k = key(3);
    let payload = b"{\"device_timestamp\":1,\"lat\":1.5,\"lon\":2.5}".to_vec();
    let text = seal_point(&k, 1_727_038_236, 123_456_789, &payload).unwrap();
    assert!(text.chars().all(|c| c.is_ascii_hexdigit() && !c.is_ascii_uppercase()));
    let bytes = decode(&text);
    assert_eq!(bytes.len(), 12 + payload.len() + 16);

    let cipher = Aes256Gcm::new(Key::<Aes256Gcm>::from_slice(&k));
    let t = time_block_bytes(1_727_038_236, 123_456_789);
    let c0 = cipher.encrypt(Nonce::from_slice(&t), t.as_slice()).unwrap();
    assert_eq!(&bytes[..12], &c0[..12]);
    let opened = cipher.decrypt(Nonce::from_slice(&bytes[..12]), &bytes[12..]).unwrap();
    assert_eq!(opened, payload);
    // the time is not in the clear
    assert_ne!(&bytes[..12], t.as_slice());
}

#[test]
fn sealed_text_of_a_small_payload_is_accepted_whatever_the_key() {
    for b in [0u8, 1, 200] {
        for len in [0usize, 1, 100, MAX_SEALABLE_PAYLOAD] {
            let text = seal_point(&key(b), 5, 6, &vec![0x5a; len]).unwrap();
            assert!(accept_sealed(&decode(&text)));
        }
        let text = seal_point(&key(b), 5, 6, &vec![0x5a; MAX_SEALABLE_PAYLOAD + 1]).unwrap();
        assert!(!accept_sealed(&decode(&text)));
    }
}

#[test]
fn accept_bound() {
    assert!(accept_sealed(&vec![]));
    assert!(accept_sealed(&vec![1u8; 400]));
    assert!(!accept_sealed(&vec![1u8; 401]));
}

#[test]
fn sealed_params_decode_hex() {
    let mut db = Ledger::new();
    generate_new_log(&mut db, false, &vec![], 0).unwrap();
    set_log_token(&mut db, 1, "secret".to_string()).unwrap();

    let p = SetLastLocSecParams { priv_token: "secret".to_string(), data: "abcdef".to_string() };
    let n = p.to_newinfo(&db).unwrap();
    assert_eq!(n.log_id, 1);
    assert_eq!(n.data, vec![0xab, 0xcd, 0xef]);
    assert_eq!(n.server_timestamp, None);

    let p = SetLastLocSecParams { priv_token: "secret".to_string(), data: "0A1b".to_string() };
    assert_eq!(p.to_newinfo(&db).unwrap().data, vec![0x0a, 0x1b]);

    for bad in ["abc", "zz", "é1"] {
        let p = SetLastLocSecParams { priv_token: "secret".to_string(), data: bad.to_string() };
        assert!(p.to_newinfo(&db).is_none());
    }
    let p = SetLastLocSecParams { priv_token: "other".to_string(), data: "ab".to_string() };
    assert!(p.to_newinfo(&db).is_none());
}
