use kaleidohash::chain::Chain;
use kaleidohash::reduce::reduce;
use kaleidohash::reduce::Reduction;
use kaleidohash::space::PlaintextSpace;
use sha1::Digest;

#[test]
fn forward_is_deterministic() {
    let s = PlaintextSpace::default_space(3).unwrap();
    let c1 = Chain::forward(&b"0Az".to_vec(), 40, &s, Reduction::StepMixed);
    let c2 = Chain::forward(&b"0Az".to_vec(), 40, &s, Reduction::StepMixed);
    assert_eq!(c1.seed, c2.seed);
    assert_eq!(c1.terminal, c2.terminal);
}

#[test]
fn forward_zero_rounds_is_plain_digest() {
    let s = PlaintextSpace::default_space(3).unwrap();
    let c = Chain::forward(&b"abc".to_vec(), 0, &s, Reduction::StepMixed);
    let expected: Vec<u8> = vec![
        0xa9, 0x99, 0x3e, 0x36, 0x47, 0x06, 0x81, 0x6a, 0xba, 0x3e, 0x25, 0x71, 0x78, 0x50, 0xc2,
        0x6c, 0x9c, 0xd0, 0xd8, 0x9d,
    ];
    assert_eq!(c.terminal, expected);
    assert_eq!(c.terminal, sha1::Sha1::digest(b"abc").to_vec());
    assert_eq!(c.terminal.to_vec(), openssl::sha::sha1(b"abc").to_vec());
}

#[test]
fn forward_one_round_recomputes_by_hand() {
    let s = PlaintextSpace::new(b"abcdef".to_vec(), 4).unwrap();
    let seed = b"beef".to_vec();
    let h0 = openssl::sha::sha1(&seed).to_vec();
    let p1 = reduce(&h0, 0, &s, Reduction::StepMixed);
    let h1 = openssl::sha::sha1(&p1).to_vec();
    let c = Chain::forward(&seed, 1, &s, Reduction::StepMixed);
    assert_eq!(c.terminal, h1);
}

#[test]
fn reduce_lands_in_space() {
    let s = PlaintextSpace::new(b"abc".to_vec(), 6).unwrap();
    let h: Vec<u8> = vec![0xff; 20];
    let p = reduce(&h, 0, &s, Reduction::StepMixed);
    assert_eq!(p.len(), 6);
    assert!(p.iter().all(|b| s.alphabet.contains(b)));
}

#[test]
fn reduce_is_deterministic() {
    let s = PlaintextSpace::new(b"0123456789".to_vec(), 8).unwrap();
    let h = openssl::sha::sha1(b"some hash input").to_vec();
    assert_eq!(
        reduce(&h, 7, &s, Reduction::StepMixed),
        reduce(&h, 7, &s, Reduction::StepMixed)
    );
    assert_eq!(
        reduce(&h, 7, &s, Reduction::StepBlind),
        reduce(&h, 7, &s, Reduction::StepBlind)
    );
}

#[test]
fn step_mixed_reduce_varies_with_step() {
    let s = PlaintextSpace::new(b"0123456789".to_vec(), 8).unwrap();
    let h = openssl::sha::sha1(b"position test").to_vec();
    assert_ne!(
        reduce(&h, 0, &s, Reduction::StepMixed),
        reduce(&h, 1, &s, Reduction::StepMixed)
    );
}

#[test]
fn reduce_varies_with_hash() {
    let s = PlaintextSpace::new(b"0123456789".to_vec(), 8).unwrap();
    let h1 = openssl::sha::sha1(b"a").to_vec();
    let h2 = openssl::sha::sha1(b"b").to_vec();
    assert_ne!(
        reduce(&h1, 0, &s, Reduction::StepMixed),
        reduce(&h2, 0, &s, Reduction::StepMixed)
    );
}

#[test]
fn step_blind_reduce_ignores_step() {
    let s = PlaintextSpace::new(b"0123456789".to_vec(), 8).unwrap();
    let h = openssl::sha::sha1(b"another hash input").to_vec();
    assert_eq!(
        reduce(&h, 0, &s, Reduction::StepBlind),
        reduce(&h, 99, &s, Reduction::StepBlind)
    );
}
