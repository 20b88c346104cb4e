use kaleidohash::reduce::Reduction;
use kaleidohash::space::PlaintextSpace;
use kaleidohash::table::Table;

fn sha1(data: &[u8]) -> Vec<u8> {
    openssl::sha::sha1(data).to_vec()
}

fn small_table(chain_length: u64) -> Table {
    let s = PlaintextSpace::new(b"abc".to_vec(), 3).unwrap();
    let mut seeds: Vec<Vec<u8>> = Vec::new();
    for k in 0..27 {
        seeds.push(s.nth_plaintext(k));
    }
    Table::build_from_seeds(s, chain_length, seeds, Reduction::StepMixed).unwrap()
}

#[test]
fn column_check_recovers_every_stored_terminal() {
    let t = small_table(40);
    for i in 0..t.chains.len() {
        let target = t.chains[i].terminal.clone();
        let p = t.check_column(&target).expect("stored terminal must be recovered");
        assert_eq!(sha1(&p), target);
    }
}

#[test]
fn lookup_recovers_every_stored_terminal() {
    let t = small_table(40);
    for i in 0..t.chains.len() {
        let target = t.chains[i].terminal.clone();
        let p = t.lookup(&target).expect("stored terminal must be recovered");
        assert_eq!(sha1(&p), target);
    }
}

#[test]
fn lookup_recovers_seed_from_its_digest() {
    let lowercase: Vec<u8> = (b'a'..=b'z').collect();
    let s = PlaintextSpace::new(lowercase, 3).unwrap();
    let seeds = vec![
        b"abc".to_vec(),
        b"qed".to_vec(),
        b"xyz".to_vec(),
        b"mno".to_vec(),
        b"jkl".to_vec(),
    ];
    let t = Table::build_from_seeds(s, 200, seeds, Reduction::StepMixed).unwrap();
    let target = sha1(b"abc");
    assert_eq!(t.lookup(&target), Some(b"abc".to_vec()));
}

#[test]
fn interior_round_hash_is_recovered_on_merge_free_table() {
    let lowercase: Vec<u8> = (b'a'..=b'z').collect();
    let s = PlaintextSpace::new(lowercase, 3).unwrap();
    let seeds = vec![
        b"abc".to_vec(),
        b"foo".to_vec(),
        b"bar".to_vec(),
        b"qux".to_vec(),
        b"dog".to_vec(),
        b"cat".to_vec(),
        b"owl".to_vec(),
        b"elk".to_vec(),
        b"hen".to_vec(),
        b"fox".to_vec(),
    ];
    let t = Table::build_from_seeds(s, 30, seeds, kaleidohash::reduce::Reduction::StepMixed)
        .unwrap();
    assert_eq!(t.duplicates(), 0);
    for i in [0usize, 4, 9] {
        let seed = t.chains[i].seed.clone();
        let mut h = sha1(&seed);
        for r in 0..12u64 {
            let p = t.lookup(&h).expect("a covered hash must be recovered");
            assert_eq!(sha1(&p), h);
            let pl = kaleidohash::reduce::reduce(&h, r, &t.space, t.red);
            h = sha1(&pl);
        }
    }
}

#[test]
fn zero_round_table_inverts_seed_digests() {
    let s = PlaintextSpace::new(b"ab".to_vec(), 2).unwrap();
    let seeds = vec![b"aa".to_vec(), b"ab".to_vec(), b"ba".to_vec()];
    let t = Table::build_from_seeds(s, 0, seeds.clone(), Reduction::StepMixed).unwrap();
    for seed in &seeds {
        assert_eq!(t.lookup(&sha1(seed)), Some(seed.clone()));
    }
    assert_eq!(t.lookup(&sha1(b"bb")), None);
}

#[test]
fn lookup_miss_returns_none() {
    let t = small_table(25);
    let target = sha1(b"zz");
    assert_eq!(t.lookup(&target), None);
}

#[test]
fn row_check_rejects_false_alarm() {
    let s = PlaintextSpace::new(b"a".to_vec(), 2).unwrap();
    let seeds = vec![b"xy".to_vec(), b"zw".to_vec()];
    let t = Table::build_from_seeds(s, 1, seeds, Reduction::StepBlind).unwrap();
    // Any target reduces to "aa", so its hypothetical terminal equals the
    // stored terminals; the replay never passes through the target and the
    // engine must keep searching and finally miss.
    let target = sha1(b"qq");
    assert_eq!(t.check_rows(&target), None);
    assert_eq!(t.lookup(&target), None);
}

#[test]
fn column_check_finds_merged_terminal() {
    let s = PlaintextSpace::new(b"a".to_vec(), 2).unwrap();
    let seeds = vec![b"xy".to_vec(), b"zw".to_vec()];
    let t = Table::build_from_seeds(s, 1, seeds, Reduction::StepBlind).unwrap();
    let target = sha1(b"aa");
    assert_eq!(t.lookup(&target), Some(b"aa".to_vec()));
}
