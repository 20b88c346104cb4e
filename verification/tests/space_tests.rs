use kaleidohash::space::PlaintextSpace;

#[test]
fn new_accepts_distinct_alphabet() {
    let s = PlaintextSpace::new(b"abc".to_vec(), 4).unwrap();
    assert_eq!(s.alphabet, b"abc".to_vec());
    assert_eq!(s.length, 4);
}

#[test]
fn new_rejects_empty_alphabet() {
    assert!(PlaintextSpace::new(Vec::new(), 3).is_none());
}

#[test]
fn new_rejects_zero_length() {
    assert!(PlaintextSpace::new(b"abc".to_vec(), 0).is_none());
}

#[test]
fn new_rejects_repeated_symbol() {
    assert!(PlaintextSpace::new(b"aba".to_vec(), 3).is_none());
}

#[test]
fn default_space_is_printable_ascii_range() {
    let s = PlaintextSpace::default_space(3).unwrap();
    assert_eq!(s.alphabet.len(), 75);
    assert_eq!(s.alphabet[0], b'0');
    assert_eq!(s.alphabet[74], b'z');
    for i in 1..75 {
        assert_eq!(s.alphabet[i], s.alphabet[i - 1] + 1);
    }
}

#[test]
fn holds_at_least_is_exact() {
    let s = PlaintextSpace::new(b"ab".to_vec(), 3).unwrap();
    assert!(s.holds_at_least(8));
    assert!(!s.holds_at_least(9));
    assert!(s.holds_at_least(0));
    let one = PlaintextSpace::new(b"a".to_vec(), 5).unwrap();
    assert!(one.holds_at_least(1));
    assert!(!one.holds_at_least(2));
}

#[test]
fn nth_plaintext_enumerates_least_significant_first() {
    let s = PlaintextSpace::new(b"ab".to_vec(), 3).unwrap();
    assert_eq!(s.nth_plaintext(0), b"aaa".to_vec());
    assert_eq!(s.nth_plaintext(1), b"baa".to_vec());
    assert_eq!(s.nth_plaintext(2), b"aba".to_vec());
    assert_eq!(s.nth_plaintext(6), b"abb".to_vec());
    assert_eq!(s.nth_plaintext(7), b"bbb".to_vec());
}

#[test]
fn nth_plaintext_is_injective_below_count() {
    let s = PlaintextSpace::new(b"ab".to_vec(), 3).unwrap();
    let mut seen: Vec<Vec<u8>> = Vec::new();
    for k in 0..8 {
        let p = s.nth_plaintext(k);
        assert!(!seen.contains(&p));
        seen.push(p);
    }
}

#[test]
fn sample_stays_in_space() {
    let s = PlaintextSpace::new(b"xyz".to_vec(), 5).unwrap();
    for _ in 0..20 {
        let p = s.sample();
        assert_eq!(p.len(), 5);
        assert!(p.iter().all(|b| s.alphabet.contains(b)));
    }
}
