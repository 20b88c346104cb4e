use kaleidohash::codec::decode;
use kaleidohash::codec::encode;
use kaleidohash::load::LoadError;
use kaleidohash::reduce::Reduction;
use kaleidohash::space::PlaintextSpace;
use kaleidohash::table::Table;

fn built() -> Table {
    let s = PlaintextSpace::new(b"abc".to_vec(), 3).unwrap();
    let mut seeds: Vec<Vec<u8>> = Vec::new();
    for k in 0..10 {
        seeds.push(s.nth_plaintext(k));
    }
    Table::build_from_seeds(s, 12, seeds, Reduction::StepMixed).unwrap()
}

#[test]
fn encode_decode_round_trips_exactly() {
    let t = built();
    let bytes = encode(&t);
    let back = decode(&bytes).unwrap();
    assert_eq!(back.chain_length, t.chain_length);
    assert_eq!(back.chain_count, t.chain_count);
    assert_eq!(back.space.alphabet, t.space.alphabet);
    assert_eq!(back.space.length, t.space.length);
    assert_eq!(back.red, t.red);
    assert_eq!(back.chains.len(), t.chains.len());
    for i in 0..t.chains.len() {
        assert_eq!(back.chains[i].seed, t.chains[i].seed);
        assert_eq!(back.chains[i].terminal, t.chains[i].terminal);
    }
}

#[test]
fn decoded_table_answers_lookups() {
    let t = built();
    let back = decode(&encode(&t)).unwrap();
    for i in 0..t.chains.len() {
        let target = t.chains[i].terminal.clone();
        let p = back.lookup(&target).expect("stored terminal must be recovered");
        assert_eq!(openssl::sha::sha1(&p).to_vec(), target);
    }
}

#[test]
fn decode_rejects_truncation_anywhere() {
    let t = built();
    let bytes = encode(&t);
    for cut in 0..bytes.len() {
        let r = decode(&bytes[..cut].to_vec());
        assert!(matches!(r, Err(LoadError::Malformed)), "accepted a {cut}-byte prefix");
    }
}

#[test]
fn decode_rejects_trailing_bytes() {
    let t = built();
    let mut bytes = encode(&t);
    bytes.push(0);
    assert!(matches!(decode(&bytes), Err(LoadError::Malformed)));
}

#[test]
fn decode_rejects_bad_reduction_tag() {
    let t = built();
    let mut bytes = encode(&t);
    bytes[24] = 9;
    assert!(matches!(decode(&bytes), Err(LoadError::Malformed)));
}

#[test]
fn decode_rejects_empty_input() {
    assert!(matches!(decode(&Vec::new()), Err(LoadError::Malformed)));
}
