use state_commitment::decimal::Dec;
use state_commitment::hashing::Hash256;
use state_commitment::keys::{gen_account_key, gen_order_id_key, gen_symbol_key, AskOrBid};
use state_commitment::snapshot::{Account, Data, OrderBook};
use state_commitment::tree::CommitmentTree;
use state_commitment::values::{AccountValue, OrderValue, TapeValue};
use state_commitment::zero_hash_bytes;
use std::io::Write;

fn dec(neg: bool, mantissa: u128, scale: u32) -> Dec {
    Dec::new(neg, mantissa, scale)
}

fn canon_string(d: &Dec) -> String {
    String::from_utf8(d.to_canon_bytes()).unwrap()
}

#[test]
fn test_dump() {
    let order = OrderValue::new(Hash256::zero(), dec(false, 1, 0), dec(false, 1, 0), 0);
    let mut book = OrderBook::new(
        3,
        3,
        dec(false, 1, 3),
        dec(false, 1, 3),
        dec(false, 1, 3),
        dec(false, 1, 0),
        false,
    );
    assert!(book.push_order(7, order));
    let mut test = Data::new();
    assert!(test.push_orderbook((101, 100), book));
    assert!(test.check_valid());

    let raw = test.into_raw();
    let de = Data::from_raw(&raw).unwrap();
    assert_eq!(test, de);
}

#[test]
fn snapshot_round_trip_full() {
    let mut data = Data::new();
    let mut book = OrderBook::new(
        2,
        4,
        dec(false, 5, 4),
        dec(false, 25, 5),
        dec(false, 1, 2),
        dec(false, 10, 0),
        true,
    );
    let owner = Hash256::new([7u8; 32]);
    assert!(book.push_order(1, OrderValue::new(owner, dec(false, 15, 1), dec(false, 99, 2), 1)));
    assert!(book.push_order(4, OrderValue::new(owner, dec(true, 2, 0), dec(false, 100, 2), 0)));
    assert!(data.push_orderbook((1, 2), book));
    assert!(data.push_orderbook(
        (101, 100),
        OrderBook::new(3, 3, dec(false, 1, 3), dec(false, 1, 3), dec(false, 1, 3), dec(false, 1, 0), false),
    ));
    assert!(data.push_user(
        1,
        vec![
            (1, Account::new(dec(false, 1000, 2), dec(false, 0, 0))),
            (2, Account::new(dec(false, 5, 0), dec(false, 5, 0))),
        ],
    ));
    assert!(data.push_user(9, vec![(3, Account::new(dec(true, 1, 1), dec(false, 0, 5)))]));
    assert!(data.check_valid());

    let raw = data.into_raw();
    let de = Data::from_raw(&raw).unwrap();
    assert_eq!(data, de);
}

#[test]
fn snapshot_rejects_corrupt_streams() {
    // not a zlib stream at all
    let junk = vec![1u8, 2, 3, 4, 5];
    assert!(Data::from_raw(&junk).is_err());

    // a well-formed zlib stream that is not a snapshot encoding
    let mut enc = flate2::write::ZlibEncoder::new(Vec::new(), flate2::Compression::best());
    enc.write_all(&[9u8; 11]).unwrap();
    let stream = enc.finish().unwrap();
    assert!(Data::from_raw(&stream).is_err());

    // flipping a byte of a valid snapshot must not load as the original
    let data = Data::new();
    let mut raw = data.into_raw();
    let last = raw.len() - 1;
    raw[last] ^= 0xff;
    match Data::from_raw(&raw) {
        Ok(other) => assert_ne!(other, data),
        Err(_) => {},
    }
}

#[test]
fn canonical_decimal_text() {
    assert_eq!(canon_string(&dec(false, 1, 0)), "1");
    assert_eq!(canon_string(&dec(false, 100, 2)), "1");
    assert_eq!(canon_string(&dec(false, 1, 1)), "0.1");
    assert_eq!(canon_string(&dec(false, 100, 3)), "0.1");
    assert_eq!(canon_string(&dec(false, 1001, 3)), "1.001");
    assert_eq!(canon_string(&dec(false, 0, 5)), "0");
    assert_eq!(canon_string(&dec(true, 0, 5)), "0");
    assert_eq!(canon_string(&dec(true, 5, 1)), "-0.5");
    assert_eq!(canon_string(&dec(true, 1230, 4)), "-0.123");
    assert_eq!(canon_string(&dec(false, 123456, 4)), "12.3456");
    assert_eq!(canon_string(&dec(false, 10000000, 0)), "10000000");
}

#[test]
fn canonical_decimal_matches_reference_library() {
    let samples: Vec<(bool, u128, u32)> = vec![
        (false, 1, 0),
        (false, 100, 2),
        (false, 1, 1),
        (false, 1001, 3),
        (false, 0, 5),
        (true, 0, 3),
        (true, 5, 1),
        (false, 123456, 4),
        (true, 99999999999, 7),
        (false, 1000000, 6),
        (false, 123, 28),
    ];
    for (neg, mantissa, scale) in samples {
        let signed: i128 = if neg { -(mantissa as i128) } else { mantissa as i128 };
        let reference = rust_decimal::Decimal::from_i128_with_scale(signed, scale);
        let expected = reference.normalize().to_string();
        assert_eq!(canon_string(&dec(neg, mantissa, scale)), expected);
    }
}

#[test]
fn zero_elision() {
    let zero = Hash256::zero();
    // zero-size price level: canonical zero hash, whatever the best price
    assert_eq!(TapeValue::new(dec(false, 0, 0), dec(false, 42, 1)).to_h256(), zero);
    assert_eq!(TapeValue::new(dec(true, 0, 7), dec(false, 1, 0)).to_h256(), zero);
    assert_eq!(TapeValue::zero().to_h256(), zero);
    // empty account: canonical zero hash, whatever the scales of the zeros
    assert_eq!(AccountValue::new(dec(false, 0, 0), dec(false, 0, 0)).to_h256(), zero);
    assert_eq!(AccountValue::new(dec(false, 0, 2), dec(true, 0, 9)).to_h256(), zero);
    // nonzero values hash away from the zero sentinel
    assert_ne!(TapeValue::new(dec(false, 1, 0), dec(false, 1, 0)).to_h256(), zero);
    assert_ne!(AccountValue::new(dec(false, 1, 2), dec(false, 0, 0)).to_h256(), zero);
    // orders deliberately perform no zero elision
    assert_ne!(OrderValue::zero().to_h256(), zero);
}

#[test]
fn decimal_scale_determinism() {
    // accountHash(Decimal("1"), Decimal("0")) == accountHash(Decimal("1.0"), Decimal("0.00"))
    let a = AccountValue::new(dec(false, 1, 0), dec(false, 0, 0)).to_h256();
    let b = AccountValue::new(dec(false, 10, 1), dec(false, 0, 2)).to_h256();
    assert_eq!(a, b);
    let t1 = TapeValue::new(dec(false, 1000, 2), dec(false, 5, 1)).to_h256();
    let t2 = TapeValue::new(dec(false, 10, 0), dec(false, 50, 2)).to_h256();
    assert_eq!(t1, t2);
}

#[test]
fn domain_separation_spot_check() {
    let addr = Hash256::zero();
    let account = gen_account_key(addr, 1);
    let side_ask = gen_symbol_key((101, 100), AskOrBid::Ask);
    let side_bid = gen_symbol_key((101, 100), AskOrBid::Bid);
    let order = gen_order_id_key(1);
    assert_ne!(account, side_ask);
    assert_ne!(account, side_bid);
    assert_ne!(account, order);
    assert_ne!(side_ask, side_bid);
    assert_ne!(side_ask, order);
    // same raw small integers in both domains still separate
    assert_ne!(gen_account_key(addr, 0), gen_order_id_key(0));
}

fn reference_blake2b(parts: &[&[u8]]) -> Vec<u8> {
    let mut hasher = blake2b_rs::Blake2bBuilder::new(32)
        .personal(b"sparsemerkletree")
        .key(&[])
        .build();
    for p in parts {
        hasher.update(p);
    }
    let mut buf = [0u8; 32];
    hasher.finalize(&mut buf);
    buf.to_vec()
}

#[test]
fn key_derivation_matches_reference_hash() {
    // account key: 32 address bytes then the little-endian currency id
    let addr = Hash256::new([3u8; 32]);
    let expected = reference_blake2b(&[&[3u8; 32], &1u32.to_le_bytes()]);
    assert_eq!(gen_account_key(addr, 1).to_vec(), expected);

    // order key: the little-endian order id alone
    let expected = reference_blake2b(&[&42u64.to_le_bytes()]);
    assert_eq!(gen_order_id_key(42).to_vec(), expected);

    // symbol-side key: hash of the two currency ids, hashed again with the
    // side tag offset by two (ask = 0 + 2)
    let inner = reference_blake2b(&[&101u32.to_le_bytes(), &100u32.to_le_bytes()]);
    let expected = reference_blake2b(&[&inner, &2u32.to_le_bytes()]);
    assert_eq!(gen_symbol_key((101, 100), AskOrBid::Ask).to_vec(), expected);
    let expected_bid = reference_blake2b(&[&inner, &3u32.to_le_bytes()]);
    assert_eq!(gen_symbol_key((101, 100), AskOrBid::Bid).to_vec(), expected_bid);
}

#[test]
fn leaf_hash_matches_reference_hash() {
    // a price level hashes the canonical texts of size then best price
    let expected = reference_blake2b(&[b"10", b"0.5"]);
    assert_eq!(TapeValue::new(dec(false, 10, 0), dec(false, 5, 1)).to_h256().to_vec(), expected);

    // an order hashes owner, amount, price, and the 4-byte side tag
    let owner = [9u8; 32];
    let expected = reference_blake2b(&[&owner, b"1.5", b"0.99", &1u32.to_le_bytes()]);
    assert_eq!(
        OrderValue::new(Hash256::new(owner), dec(false, 15, 1), dec(false, 99, 2), 1)
            .to_h256()
            .to_vec(),
        expected
    );

    // an account hashes tradable then frozen
    let expected = reference_blake2b(&[b"10", b"-0.5"]);
    assert_eq!(AccountValue::new(dec(false, 10, 0), dec(true, 5, 1)).to_h256().to_vec(), expected);
}

#[test]
fn proof_soundness() {
    let mut tree = CommitmentTree::new();
    let key = gen_account_key(Hash256::zero(), 1);
    // tradable = 10.00, frozen = 0
    let leaf1 = AccountValue::new(dec(false, 1000, 2), dec(false, 0, 0)).to_h256();
    let r1 = tree.update(&key, &leaf1);
    assert_eq!(tree.root(), r1);

    let proof1 = tree.generate_proof(&key);
    assert!(CommitmentTree::verify_proof(&proof1, &r1, &key, &leaf1));

    // update the same key to tradable = 5, frozen = 5
    let leaf2 = AccountValue::new(dec(false, 5, 0), dec(false, 5, 0)).to_h256();
    let r2 = tree.update(&key, &leaf2);
    assert_ne!(r1, r2);

    // the old proof of the old value fails against the new root
    assert!(!CommitmentTree::verify_proof(&proof1, &r2, &key, &leaf1));
    // a tampered leaf fails against the old root
    assert!(!CommitmentTree::verify_proof(&proof1, &r1, &key, &leaf2));

    // the committed leaf is readable back
    assert_eq!(tree.get(&key), leaf2);
}

#[test]
fn empty_tree_has_zero_root() {
    let tree = CommitmentTree::new();
    assert_eq!(tree.root().to_vec(), zero_hash_bytes());
    let key = gen_order_id_key(5);
    assert_eq!(tree.get(&key), Hash256::zero());
}

#[test]
fn zero_leaf_unsets_a_key() {
    let mut tree = CommitmentTree::new();
    let key = gen_order_id_key(5);
    let leaf = OrderValue::new(Hash256::zero(), dec(false, 1, 0), dec(false, 2, 0), 0).to_h256();
    let r1 = tree.update(&key, &leaf);
    assert_ne!(r1.to_vec(), zero_hash_bytes());
    let r2 = tree.update(&key, &Hash256::zero());
    assert_eq!(r2.to_vec(), zero_hash_bytes());
    assert_eq!(tree.get(&key), Hash256::zero());
}

#[test]
fn push_order_keeps_ids_ascending() {
    let mut book = OrderBook::new(
        1,
        1,
        dec(false, 0, 0),
        dec(false, 0, 0),
        dec(false, 0, 0),
        dec(false, 0, 0),
        false,
    );
    let order = OrderValue::zero();
    assert!(book.push_order(5, order));
    assert!(!book.push_order(5, order));
    assert!(!book.push_order(4, order));
    assert!(book.push_order(6, order));
    assert!(book.check_valid());
}
