use kaleidohash::reduce::Reduction;
use kaleidohash::space::PlaintextSpace;
use kaleidohash::table::BuildError;
use kaleidohash::table::Table;

fn ascending(a: &[u8], b: &[u8]) -> bool {
    a <= b
}

#[test]
fn build_small_table_is_sorted_with_distinct_seeds() {
    let s = PlaintextSpace::default_space(3).unwrap();
    let t = Table::build(s, 10, 50, Reduction::StepMixed).unwrap();
    assert_eq!(t.chain_count, 50);
    assert_eq!(t.chains.len(), 50);
    for w in t.chains.windows(2) {
        assert!(ascending(&w[0].terminal, &w[1].terminal));
    }
    for i in 0..t.chains.len() {
        for j in (i + 1)..t.chains.len() {
            assert_ne!(t.chains[i].seed, t.chains[j].seed);
        }
        assert_eq!(t.chains[i].seed.len(), 3);
        assert!(t.chains[i].seed.iter().all(|b| t.space.alphabet.contains(b)));
    }
}

#[test]
fn build_saturated_space_still_gets_distinct_seeds() {
    let s = PlaintextSpace::new(b"ab".to_vec(), 3).unwrap();
    let t = Table::build(s, 5, 8, Reduction::StepMixed).unwrap();
    assert_eq!(t.chains.len(), 8);
    for i in 0..8 {
        for j in (i + 1)..8 {
            assert_ne!(t.chains[i].seed, t.chains[j].seed);
        }
    }
}

#[test]
fn build_fails_when_space_too_small() {
    let lowercase: Vec<u8> = (b'a'..=b'z').collect();
    let s = PlaintextSpace::new(lowercase, 3).unwrap();
    let r = Table::build(s, 2000, 80000, Reduction::StepMixed);
    assert!(matches!(r, Err(BuildError::SpaceTooSmall)));
}

#[test]
fn build_from_seeds_rejects_duplicates() {
    let s = PlaintextSpace::new(b"ab".to_vec(), 2).unwrap();
    let seeds = vec![b"aa".to_vec(), b"ab".to_vec(), b"aa".to_vec()];
    let r = Table::build_from_seeds(s, 4, seeds, Reduction::StepMixed);
    assert!(matches!(r, Err(BuildError::DuplicateSeed)));
}

#[test]
fn duplicates_zero_without_merges() {
    let s = PlaintextSpace::new(b"ab".to_vec(), 2).unwrap();
    let seeds = vec![b"aa".to_vec(), b"ab".to_vec(), b"bb".to_vec()];
    let t = Table::build_from_seeds(s, 0, seeds, Reduction::StepMixed).unwrap();
    assert_eq!(t.duplicates(), 0);
}

#[test]
fn duplicates_counts_forced_merges() {
    let s = PlaintextSpace::new(b"a".to_vec(), 2).unwrap();
    let seeds = vec![b"xy".to_vec(), b"zw".to_vec()];
    let t = Table::build_from_seeds(s, 3, seeds, Reduction::StepBlind).unwrap();
    assert_eq!(t.duplicates(), 1);
}

#[test]
fn duplicates_counts_every_repeat() {
    let s = PlaintextSpace::new(b"a".to_vec(), 2).unwrap();
    let seeds = vec![b"xy".to_vec(), b"zw".to_vec(), b"qr".to_vec()];
    let t = Table::build_from_seeds(s, 2, seeds, Reduction::StepBlind).unwrap();
    assert_eq!(t.duplicates(), 2);
}

#[test]
fn estimated_size_is_exact() {
    let s = PlaintextSpace::default_space(3).unwrap();
    let t = Table::build(s, 10, 50, Reduction::StepMixed).unwrap();
    assert_eq!(t.estimated_size(), Some((20 + 3) * 50));
}
