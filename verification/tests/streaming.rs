//! Streaming behaviour of the hashing interfaces: chunking invariance,
//! one-shot equivalence, determinism, and the `Hash` capability.

use siphash::sip::SipHashFunction;
use siphash::traits::digest_chunks;
use siphash::traits::HashContext;
use siphash::traits::HashFunction;

fn factory() -> SipHashFunction {
    SipHashFunction::new_with_keys(0x0706050403020100, 0x0f0e0d0c0b0a0908)
}

fn counting_bytes(len: usize) -> Vec<u8> {
    (0..len).map(|i| i as u8).collect()
}

fn split_into(msg: &[u8], sizes: &[usize]) -> Vec<Vec<u8>> {
    let mut chunks = Vec::new();
    let mut at = 0;
    for &s in sizes {
        let end = (at + s).min(msg.len());
        chunks.push(msg[at..end].to_vec());
        at = end;
    }
    chunks.push(msg[at..].to_vec());
    chunks
}

#[test]
fn chunking_invariance_updates() {
    let f = factory();
    let msg = counting_bytes(64);
    let expected = f.digest(&msg);
    let partitions: [&[usize]; 7] = [
        &[],
        &[1, 1, 1, 1, 1, 1, 1, 1, 1],
        &[3, 5, 7, 11, 13],
        &[8, 8, 8, 8],
        &[0, 0, 9, 0, 23],
        &[63],
        &[64],
    ];
    for sizes in partitions {
        let mut ctx = f.init();
        for chunk in split_into(&msg, sizes) {
            ctx.update(&chunk);
        }
        assert_eq!(ctx.finish(), expected, "partition {:?}", sizes);
    }
}

#[test]
fn chunking_invariance_byte_at_a_time() {
    let f = factory();
    for len in 0..64usize {
        let msg = counting_bytes(len);
        let mut ctx = f.init();
        for &b in &msg {
            ctx.update(&[b]);
        }
        assert_eq!(ctx.finish(), f.digest(&msg), "input length {}", len);
    }
}

#[test]
fn chunking_invariance_digest_chunks() {
    let f = factory();
    let msg = counting_bytes(41);
    let expected = f.digest(&msg);
    assert_eq!(digest_chunks(&f, &split_into(&msg, &[5, 16, 2])), expected);
    assert_eq!(digest_chunks(&f, &split_into(&msg, &[40])), expected);
    assert_eq!(digest_chunks(&f, &vec![msg.clone()]), expected);
}

#[test]
fn one_shot_equivalence() {
    let f = factory();
    for len in [0usize, 1, 7, 8, 9, 15, 16, 17, 33, 64] {
        let msg = counting_bytes(len);
        let mut ctx = f.init();
        ctx.update(&msg);
        assert_eq!(ctx.finish(), f.digest(&msg), "input length {}", len);
    }
}

#[test]
fn single_byte_equivalence() {
    let f = factory();
    for b in 0..=255u8 {
        assert_eq!(f.digest_u8(b), f.digest(&[b]), "byte {}", b);
    }
}

#[test]
fn determinism() {
    let a = SipHashFunction::new_with_keys(17, 23);
    let b = SipHashFunction::new_with_keys(17, 23);
    for len in 0..32usize {
        let msg = counting_bytes(len);
        assert_eq!(a.digest(&msg), b.digest(&msg), "input length {}", len);
    }
}

#[test]
fn hash_capability_u8() {
    let f = factory();
    assert_eq!(siphash::traits::Hash::digest(&42u8, &f), f.digest(&[42]));
    let mut ctx = f.init();
    siphash::traits::Hash::hash(&7u8, &mut ctx);
    siphash::traits::Hash::hash(&39u8, &mut ctx);
    assert_eq!(ctx.finish(), f.digest(&[7, 39]));
}

#[test]
fn hash_capability_slice() {
    let f = factory();
    let msg = counting_bytes(19);
    assert_eq!(siphash::traits::Hash::digest(&msg[..], &f), f.digest(&msg));
    let mut ctx = f.init();
    siphash::traits::Hash::hash(&msg[..], &mut ctx);
    assert_eq!(ctx.finish(), f.digest(&msg));
}

#[test]
fn mixed_hash_and_update() {
    let f = factory();
    let mut ctx = f.init();
    ctx.update(&[0, 1, 2]);
    siphash::traits::Hash::hash(&3u8, &mut ctx);
    ctx.update(&[4, 5, 6, 7, 8]);
    assert_eq!(ctx.finish(), f.digest(&counting_bytes(9)));
}
