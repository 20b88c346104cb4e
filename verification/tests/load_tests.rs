use kaleidohash::load::LoadError;
use kaleidohash::reduce::Reduction;
use kaleidohash::space::PlaintextSpace;
use kaleidohash::table::Table;

fn built() -> Table {
    let s = PlaintextSpace::new(b"abc".to_vec(), 3).unwrap();
    let mut seeds: Vec<Vec<u8>> = Vec::new();
    for k in 0..12 {
        seeds.push(s.nth_plaintext(k));
    }
    Table::build_from_seeds(s, 15, seeds, Reduction::StepMixed).unwrap()
}

fn pairs_of(t: &Table) -> Vec<(Vec<u8>, Vec<u8>)> {
    t.chains.iter().map(|c| (c.seed.clone(), c.terminal.clone())).collect()
}

#[test]
fn round_trip_reproduces_table_exactly() {
    let t = built();
    let loaded = Table::from_parts(
        t.space.alphabet.clone(),
        t.space.length,
        t.chain_length,
        pairs_of(&t),
        t.red,
    )
    .unwrap();
    assert_eq!(loaded.chain_length, t.chain_length);
    assert_eq!(loaded.chain_count, t.chain_count);
    assert_eq!(loaded.space.alphabet, t.space.alphabet);
    assert_eq!(loaded.space.length, t.space.length);
    assert_eq!(loaded.chains.len(), t.chains.len());
    for i in 0..t.chains.len() {
        assert_eq!(loaded.chains[i].seed, t.chains[i].seed);
        assert_eq!(loaded.chains[i].terminal, t.chains[i].terminal);
    }
}

#[test]
fn loaded_table_still_answers_lookups() {
    let t = built();
    let loaded = Table::from_parts(
        t.space.alphabet.clone(),
        t.space.length,
        t.chain_length,
        pairs_of(&t),
        t.red,
    )
    .unwrap();
    for i in 0..t.chains.len() {
        let target = t.chains[i].terminal.clone();
        let p = loaded.lookup(&target).expect("stored terminal must be recovered");
        assert_eq!(openssl::sha::sha1(&p).to_vec(), target);
    }
}

#[test]
fn load_rejects_unsorted_record() {
    let t = built();
    let mut pairs = pairs_of(&t);
    pairs.reverse();
    let r = Table::from_parts(
        t.space.alphabet.clone(),
        t.space.length,
        t.chain_length,
        pairs,
        t.red,
    );
    assert!(matches!(r, Err(LoadError::Malformed)));
}

#[test]
fn load_rejects_repeated_seed() {
    let t = built();
    let mut pairs = pairs_of(&t);
    let first_seed = pairs[0].0.clone();
    pairs.last_mut().unwrap().0 = first_seed;
    let r = Table::from_parts(
        t.space.alphabet.clone(),
        t.space.length,
        t.chain_length,
        pairs,
        t.red,
    );
    assert!(matches!(r, Err(LoadError::Malformed)));
}

#[test]
fn load_rejects_bad_space() {
    let t = built();
    let r = Table::from_parts(Vec::new(), t.space.length, t.chain_length, pairs_of(&t), t.red);
    assert!(matches!(r, Err(LoadError::Malformed)));
}
