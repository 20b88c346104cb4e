//! The persisted byte format of a table: a length-prefixed binary record of
//! the construction parameters followed by the ordered `(seed, terminal)`
//! pairs. Encoding and decoding are exact inverses on well-formed tables,
//! and a decoder never accepts anything but the encoding of a structurally
//! valid record.

use vstd::bytes::lemma_auto_spec_u64_to_from_le_bytes;
use vstd::bytes::spec_u64_from_le_bytes;
use vstd::bytes::spec_u64_to_le_bytes;
use vstd::bytes::u64_from_le_bytes;
use vstd::bytes::u64_to_le_bytes;
use vstd::prelude::*;
use vstd::slice::slice_subrange;
use vstd::slice::slice_to_vec;

use crate::chain::Chain;
use crate::load::LoadError;
use crate::order::copy_bytes;
use crate::order::lex_le;
use crate::reduce::Reduction;
use crate::table::Table;

verus! {

/// The tag byte a reduction is stored as.
pub open spec fn red_tag(red: Reduction) -> u8 {
    match red {
        Reduction::StepMixed => 1,
        Reduction::StepBlind => 2,
    }
}

/// The encoding of one `(seed, terminal)` pair: each byte string prefixed
/// with its length.
pub open spec fn spec_encode_pair(pair: (Seq<u8>, Seq<u8>)) -> Seq<u8> {
    spec_u64_to_le_bytes(pair.0.len() as u64) + pair.0 + spec_u64_to_le_bytes(pair.1.len() as u64)
        + pair.1
}

/// The encoding of the ordered pairs, one after the other.
pub open spec fn spec_encode_pairs(pairs: Seq<(Seq<u8>, Seq<u8>)>) -> Seq<u8>
    decreases pairs.len(),
{
    if pairs.len() == 0 {
        Seq::empty()
    } else {
        spec_encode_pair(pairs[0]) + spec_encode_pairs(pairs.skip(1))
    }
}

/// The encoding of a whole record: chain length, pair count, plaintext
/// length, reduction tag, length-prefixed alphabet, then the pairs.
pub open spec fn spec_encode_record(
    alphabet: Seq<u8>,
    plaintext_length: u64,
    chain_length: u64,
    red: Reduction,
    pairs: Seq<(Seq<u8>, Seq<u8>)>,
) -> Seq<u8> {
    spec_u64_to_le_bytes(chain_length) + spec_u64_to_le_bytes(pairs.len() as u64)
        + spec_u64_to_le_bytes(plaintext_length) + seq![red_tag(red)] + spec_u64_to_le_bytes(
        alphabet.len() as u64,
    ) + alphabet + spec_encode_pairs(pairs)
}

/// Reads a little-endian length from the front of `s`.
pub open spec fn spec_take_u64(s: Seq<u8>) -> Option<(u64, Seq<u8>)> {
    if s.len() >= 8 {
        Some((spec_u64_from_le_bytes(s.take(8)), s.skip(8)))
    } else {
        None
    }
}

/// Reads `n` raw bytes from the front of `s`.
pub open spec fn spec_take_bytes(s: Seq<u8>, n: int) -> Option<(Seq<u8>, Seq<u8>)> {
    if 0 <= n <= s.len() {
        Some((s.take(n), s.skip(n)))
    } else {
        None
    }
}

/// Parses `count` length-prefixed pairs from the front of `s`.
pub open spec fn spec_parse_pairs(s: Seq<u8>, count: nat) -> Option<
    (Seq<(Seq<u8>, Seq<u8>)>, Seq<u8>),
>
    decreases count,
{
    if count == 0 {
        Some((Seq::empty(), s))
    } else {
        match spec_take_u64(s) {
            None => None,
            Some((sl, s1)) => match spec_take_bytes(s1, sl as int) {
                None => None,
                Some((seed, s2)) => match spec_take_u64(s2) {
                    None => None,
                    Some((tl, s3)) => match spec_take_bytes(s3, tl as int) {
                        None => None,
                        Some((term, s4)) => match spec_parse_pairs(s4, (count - 1) as nat) {
                            None => None,
                            Some((rest, s5)) => Some((seq![(seed, term)] + rest, s5)),
                        },
                    },
                },
            },
        }
    }
}

/// Parses a whole record; `None` exactly when the bytes are not one.
pub open spec fn spec_parse_record(s: Seq<u8>) -> Option<
    (Seq<u8>, u64, u64, Reduction, Seq<(Seq<u8>, Seq<u8>)>),
> {
    match spec_take_u64(s) {
        None => None,
        Some((chain_length, s1)) => match spec_take_u64(s1) {
            None => None,
            Some((count, s2)) => match spec_take_u64(s2) {
                None => None,
                Some((plaintext_length, s3)) => if s3.len() >= 1 && (s3[0] == 1 || s3[0] == 2) {
                    let red = if s3[0] == 1 {
                        Reduction::StepMixed
                    } else {
                        Reduction::StepBlind
                    };
                    match spec_take_u64(s3.skip(1)) {
                        None => None,
                        Some((alen, s4)) => match spec_take_bytes(s4, alen as int) {
                            None => None,
                            Some((alphabet, s5)) => match spec_parse_pairs(s5, count as nat) {
                                None => None,
                                Some((pairs, s6)) => if s6.len() == 0 {
                                    Some((alphabet, plaintext_length, chain_length, red, pairs))
                                } else {
                                    None
                                },
                            },
                        },
                    }
                } else {
                    None
                },
            },
        },
    }
}

/// A byte record can be loaded exactly when it parses as a record whose
/// plaintext length is positive and machine-representable, whose alphabet
/// is nonempty and free of repeats, whose terminals are in sort order, and
/// whose seeds are pairwise distinct.
pub open spec fn spec_record_loadable(s: Seq<u8>) -> bool {
    match spec_parse_record(s) {
        None => false,
        Some((alphabet, plaintext_length, _chain_length, _red, pairs)) => {
            &&& 1 <= plaintext_length <= usize::MAX as u64
            &&& alphabet.len() >= 1
            &&& (forall|i: int, j: int| 0 <= i < j < alphabet.len() ==> alphabet[i] != alphabet[j])
            &&& (forall|i: int|
                0 <= i < pairs.len() - 1 ==> lex_le((#[trigger] pairs[i]).1, pairs[i + 1].1))
            &&& (forall|i: int, j: int|
                0 <= i < j < pairs.len() ==> (#[trigger] pairs[i]).0 != (#[trigger] pairs[j]).0)
        },
    }
}

/// Reads a little-endian length at `pos`, reporting exactly what the spec
/// parser would.
fn read_u64_at(bytes: &Vec<u8>, pos: usize) -> (r: Option<(u64, usize)>)
    requires
        pos <= bytes@.len(),
    ensures
        match r {
            Some(v) => v.1 == pos + 8 && v.1 <= bytes@.len() && spec_take_u64(
                bytes@.skip(pos as int),
            ) == Some((v.0, bytes@.skip(v.1 as int))),
            None => spec_take_u64(bytes@.skip(pos as int)) is None,
        },
{
    if bytes.len() - pos < 8 {
        return None;
    }
    let v = u64_from_le_bytes(slice_subrange(bytes.as_slice(), pos, pos + 8));
    proof {
        assert(bytes@.skip(pos as int).take(8) =~= bytes@.subrange(pos as int, pos as int + 8));
        assert(bytes@.skip(pos as int).skip(8) =~= bytes@.skip(pos as int + 8));
    }
    Some((v, pos + 8))
}

/// Reads `n` raw bytes at `pos`, reporting exactly what the spec parser
/// would.
fn read_block_at(bytes: &Vec<u8>, pos: usize, n: u64) -> (r: Option<(Vec<u8>, usize)>)
    requires
        pos <= bytes@.len(),
    ensures
        match r {
            Some(v) => v.1 == pos + n && v.1 <= bytes@.len() && spec_take_bytes(
                bytes@.skip(pos as int),
                n as int,
            ) == Some((v.0@, bytes@.skip(v.1 as int))),
            None => spec_take_bytes(bytes@.skip(pos as int), n as int) is None,
        },
{
    if n > (bytes.len() - pos) as u64 {
        return None;
    }
    let n_us = n as usize;
    let block = slice_to_vec(slice_subrange(bytes.as_slice(), pos, pos + n_us));
    proof {
        assert(bytes@.skip(pos as int).take(n as int) =~= bytes@.subrange(
            pos as int,
            pos as int + n as int,
        ));
        assert(bytes@.skip(pos as int).skip(n as int) =~= bytes@.skip(pos as int + n as int));
    }
    Some((block, pos + n_us))
}

/// The views of exec pairs: each byte vector replaced by its byte string.
pub open spec fn views_of_pairs(pairs: Seq<(Vec<u8>, Vec<u8>)>) -> Seq<(Seq<u8>, Seq<u8>)> {
    pairs.map_values(|p: (Vec<u8>, Vec<u8>)| (p.0@, p.1@))
}

/// Decodes a persisted byte record into a table, without recomputing any
/// chain. Exactly the loadable records are accepted, each field reproduced;
/// anything else — truncation, trailing bytes, a bad tag, a bad space, an
/// unsorted or seed-repeating record — is a fatal load error.
pub fn decode(bytes: &Vec<u8>) -> (r: Result<Table, LoadError>)
    ensures
        r.is_ok() == spec_record_loadable(bytes@),
        match r {
            Ok(t) => t.wf() && spec_parse_record(bytes@) == Some(
                (t.space.alphabet@, t.space.length as u64, t.chain_length, t.red, pairs_view(t)),
            ),
            Err(e) => e == LoadError::Malformed,
        },
{
    proof {
        assert(bytes@.skip(0) =~= bytes@);
    }
    let (chain_length, pos1) = match read_u64_at(bytes, 0) {
        Some(v) => v,
        None => {
            return Err(LoadError::Malformed);
        },
    };
    let (count, pos2) = match read_u64_at(bytes, pos1) {
        Some(v) => v,
        None => {
            return Err(LoadError::Malformed);
        },
    };
    let (plaintext_length64, pos3) = match read_u64_at(bytes, pos2) {
        Some(v) => v,
        None => {
            return Err(LoadError::Malformed);
        },
    };
    if pos3 >= bytes.len() {
        proof {
            assert(bytes@.skip(pos3 as int).len() == 0);
        }
        return Err(LoadError::Malformed);
    }
    let tag = bytes[pos3];
    if tag != 1 && tag != 2 {
        return Err(LoadError::Malformed);
    }
    let red = if tag == 1 {
        Reduction::StepMixed
    } else {
        Reduction::StepBlind
    };
    proof {
        assert(bytes@.skip(pos3 as int)[0] == bytes@[pos3 as int]);
        assert(bytes@.skip(pos3 as int).skip(1) =~= bytes@.skip(pos3 as int + 1));
    }
    let (alen, pos5) = match read_u64_at(bytes, pos3 + 1) {
        Some(v) => v,
        None => {
            return Err(LoadError::Malformed);
        },
    };
    let (alphabet, pos6) = match read_block_at(bytes, pos5, alen) {
        Some(v) => v,
        None => {
            return Err(LoadError::Malformed);
        },
    };
    let ghost alpha = alphabet@;
    let ghost header_continue = |pr: Option<(Seq<(Seq<u8>, Seq<u8>)>, Seq<u8>)>| -> Option<
        (Seq<u8>, u64, u64, Reduction, Seq<(Seq<u8>, Seq<u8>)>),
    > {
        match pr {
            None => None,
            Some((ps, s6)) => if s6.len() == 0 {
                Some((alpha, plaintext_length64, chain_length, red, ps))
            } else {
                None
            },
        }
    };
    proof {
        assert(spec_parse_record(bytes@) == header_continue(
            spec_parse_pairs(bytes@.skip(pos6 as int), count as nat),
        ));
    }
    let mut pairs: Vec<(Vec<u8>, Vec<u8>)> = Vec::new();
    let mut pos: usize = pos6;
    let mut i: u64 = 0;
    proof {
        assert(views_of_pairs(pairs@) =~= Seq::<(Seq<u8>, Seq<u8>)>::empty());
    }
    while i < count
        invariant
            i <= count,
            pos6 <= pos <= bytes@.len(),
            pairs@.len() == i,
            spec_parse_record(bytes@) == header_continue(
                spec_parse_pairs(bytes@.skip(pos6 as int), count as nat),
            ),
            (forall|pr: Option<(Seq<(Seq<u8>, Seq<u8>)>, Seq<u8>)>|
                #[trigger] header_continue(pr) == (match pr {
                    None => None::<(Seq<u8>, u64, u64, Reduction, Seq<(Seq<u8>, Seq<u8>)>)>,
                    Some((ps, s6)) => if s6.len() == 0 {
                        Some((alpha, plaintext_length64, chain_length, red, ps))
                    } else {
                        None
                    },
                })),
            spec_parse_pairs(bytes@.skip(pos6 as int), count as nat) == (match spec_parse_pairs(
                bytes@.skip(pos as int),
                (count - i) as nat,
            ) {
                None => None::<(Seq<(Seq<u8>, Seq<u8>)>, Seq<u8>)>,
                Some(v) => Some((views_of_pairs(pairs@) + v.0, v.1)),
            }),
        decreases count - i,
    {
        let ghost rem = (count - i) as nat;
        let ghost s_here = bytes@.skip(pos as int);
        let (sl, pa) = match read_u64_at(bytes, pos) {
            Some(v) => v,
            None => {
                return Err(LoadError::Malformed);
            },
        };
        let (seed, pb) = match read_block_at(bytes, pa, sl) {
            Some(v) => v,
            None => {
                return Err(LoadError::Malformed);
            },
        };
        let (tl, pc) = match read_u64_at(bytes, pb) {
            Some(v) => v,
            None => {
                return Err(LoadError::Malformed);
            },
        };
        let (term, td) = match read_block_at(bytes, pc, tl) {
            Some(v) => v,
            None => {
                return Err(LoadError::Malformed);
            },
        };
        let pd = td;
        let ghost oldpairs = pairs@;
        proof {
            let tailp = spec_parse_pairs(bytes@.skip(pd as int), (rem - 1) as nat);
            match tailp {
                None => {
                    assert(spec_parse_pairs(s_here, rem) is None);
                },
                Some((c2, rest)) => {
                    assert(spec_parse_pairs(s_here, rem) == Some(
                        (seq![(seed@, term@)] + c2, rest),
                    ));
                },
            }
        }
        pairs.push((seed, term));
        pos = pd;
        i = i + 1;
        proof {
            assert(pairs@.drop_last() =~= oldpairs);
            assert(views_of_pairs(pairs@) =~= views_of_pairs(oldpairs) + seq![
                (pairs@.last().0@, pairs@.last().1@),
            ]);
            let tailp = spec_parse_pairs(bytes@.skip(pos as int), (count - i) as nat);
            match tailp {
                None => {},
                Some((c2, rest)) => {
                    assert(views_of_pairs(oldpairs) + (seq![(seed@, term@)] + c2)
                        =~= views_of_pairs(pairs@) + c2);
                },
            }
        }
    }
    proof {
        assert(spec_parse_pairs(bytes@.skip(pos as int), 0) == Some(
            (Seq::<(Seq<u8>, Seq<u8>)>::empty(), bytes@.skip(pos as int)),
        ));
        assert(views_of_pairs(pairs@) + Seq::<(Seq<u8>, Seq<u8>)>::empty() =~= views_of_pairs(
            pairs@,
        ));
    }
    if pos != bytes.len() {
        proof {
            assert(bytes@.skip(pos as int).len() > 0);
        }
        return Err(LoadError::Malformed);
    }
    proof {
        assert(bytes@.skip(pos as int).len() == 0);
        assert(spec_parse_record(bytes@) == Some(
            (alpha, plaintext_length64, chain_length, red, views_of_pairs(pairs@)),
        ));
    }
    if plaintext_length64 < 1 || plaintext_length64 > usize::MAX as u64 {
        return Err(LoadError::Malformed);
    }
    let plaintext_length = plaintext_length64 as usize;
    let ghost vp = views_of_pairs(pairs@);
    let ghost pv2 = pairs@;
    proof {
        assert(vp.len() == pv2.len());
        assert(forall|k: int|
            0 <= k < pv2.len() ==> (#[trigger] vp[k]).0 == pv2[k].0@ && vp[k].1 == pv2[k].1@);
    }
    match Table::from_parts(alphabet, plaintext_length, chain_length, pairs, red) {
        Ok(t) => {
            proof {
                assert(pairs_view(t) =~= vp);
                assert(crate::load::record_valid(alpha, plaintext_length, pv2));
                assert forall|k: int| 0 <= k < vp.len() - 1 implies lex_le(
                    (#[trigger] vp[k]).1,
                    vp[k + 1].1,
                ) by {
                    assert(lex_le(pv2[k].1@, pv2[k + 1].1@));
                }
                assert forall|k: int, l: int| 0 <= k < l < vp.len() implies (#[trigger] vp[k]).0
                    != (#[trigger] vp[l]).0 by {
                    assert(pv2[k].0@ != pv2[l].0@);
                }
                assert(spec_record_loadable(bytes@));
            }
            Ok(t)
        },
        Err(_) => {
            proof {
                if spec_record_loadable(bytes@) {
                    match spec_parse_record(bytes@) {
                        Some((a2, p2, c2x, r2, prs)) => {
                            assert(prs == vp);
                            assert forall|k: int| 0 <= k < pv2.len() - 1 implies lex_le(
                                (#[trigger] pv2[k]).1@,
                                pv2[k + 1].1@,
                            ) by {
                                assert(lex_le(prs[k].1, prs[k + 1].1));
                                assert(vp[k].1 == pv2[k].1@);
                                assert(vp[k + 1].1 == pv2[k + 1].1@);
                            }
                            assert forall|k: int, l: int| 0 <= k < l < pv2.len() implies (
                            #[trigger] pv2[k]).0@ != (#[trigger] pv2[l]).0@ by {
                                assert(prs[k].0 != prs[l].0);
                                assert(vp[k].0 == pv2[k].0@);
                                assert(vp[l].0 == pv2[l].0@);
                            }
                            assert(crate::load::record_valid(alpha, plaintext_length, pv2));
                            assert(false);
                        },
                        None => {
                            assert(false);
                        },
                    }
                }
            }
            Err(LoadError::Malformed)
        },
    }
}

/// Taking a length from the front of its own encoding yields it back.
proof fn lemma_take_u64_round_trip(x: u64, rest: Seq<u8>)
    ensures
        spec_take_u64(spec_u64_to_le_bytes(x) + rest) == Some((x, rest)),
{
    lemma_auto_spec_u64_to_from_le_bytes();
    let s = spec_u64_to_le_bytes(x) + rest;
    assert(s.take(8) =~= spec_u64_to_le_bytes(x));
    assert(s.skip(8) =~= rest);
}

/// Taking `n` bytes from the front of `n` bytes plus a rest yields them
/// back.
proof fn lemma_take_bytes_round_trip(bytes: Seq<u8>, rest: Seq<u8>)
    ensures
        spec_take_bytes(bytes + rest, bytes.len() as int) == Some((bytes, rest)),
{
    let s = bytes + rest;
    assert(s.take(bytes.len() as int) =~= bytes);
    assert(s.skip(bytes.len() as int) =~= rest);
}

/// Parsing the encoding of the pairs yields them back, whatever follows.
proof fn lemma_parse_pairs_round_trip(pairs: Seq<(Seq<u8>, Seq<u8>)>, rest: Seq<u8>)
    requires
        pairs.len() <= u64::MAX,
        forall|i: int|
            0 <= i < pairs.len() ==> (#[trigger] pairs[i]).0.len() <= u64::MAX && pairs[
                i
            ].1.len() <= u64::MAX,
    ensures
        spec_parse_pairs(spec_encode_pairs(pairs) + rest, pairs.len() as nat) == Some(
            (pairs, rest),
        ),
    decreases pairs.len(),
{
    if pairs.len() == 0 {
        assert(spec_encode_pairs(pairs) + rest =~= rest);
    } else {
        let p = pairs[0];
        let tail = pairs.skip(1);
        let s = spec_encode_pairs(pairs) + rest;
        let after = spec_encode_pairs(tail) + rest;
        assert(s =~= spec_u64_to_le_bytes(p.0.len() as u64) + (p.0 + (spec_u64_to_le_bytes(
            p.1.len() as u64,
        ) + (p.1 + after))));
        lemma_take_u64_round_trip(
            p.0.len() as u64,
            p.0 + (spec_u64_to_le_bytes(p.1.len() as u64) + (p.1 + after)),
        );
        lemma_take_bytes_round_trip(p.0, spec_u64_to_le_bytes(p.1.len() as u64) + (p.1 + after));
        lemma_take_u64_round_trip(p.1.len() as u64, p.1 + after);
        lemma_take_bytes_round_trip(p.1, after);
        lemma_parse_pairs_round_trip(tail, rest);
        assert(seq![(p.0, p.1)] + tail =~= pairs);
    }
}

/// The record a table persists as: its ordered pairs, by view.
pub open spec fn pairs_view(t: Table) -> Seq<(Seq<u8>, Seq<u8>)> {
    t.chains@.map_values(|c: Chain| (c.seed@, c.terminal@))
}

/// Splitting a pair sequence splits its encoding.
proof fn lemma_encode_pairs_append(s1: Seq<(Seq<u8>, Seq<u8>)>, s2: Seq<(Seq<u8>, Seq<u8>)>)
    ensures
        spec_encode_pairs(s1 + s2) == spec_encode_pairs(s1) + spec_encode_pairs(s2),
    decreases s1.len(),
{
    if s1.len() == 0 {
        assert(s1 + s2 =~= s2);
        assert(spec_encode_pairs(s1) + spec_encode_pairs(s2) =~= spec_encode_pairs(s2));
    } else {
        let s = s1 + s2;
        assert(s[0] == s1[0]);
        assert(s.skip(1) =~= s1.skip(1) + s2);
        lemma_encode_pairs_append(s1.skip(1), s2);
        assert(spec_encode_pair(s1[0]) + (spec_encode_pairs(s1.skip(1)) + spec_encode_pairs(s2))
            =~= (spec_encode_pair(s1[0]) + spec_encode_pairs(s1.skip(1))) + spec_encode_pairs(s2));
    }
}

/// Extending the encoded prefix by one pair appends that pair's encoding.
proof fn lemma_encode_pairs_snoc(pairs: Seq<(Seq<u8>, Seq<u8>)>, i: int)
    requires
        0 <= i < pairs.len(),
    ensures
        spec_encode_pairs(pairs.take(i + 1)) == spec_encode_pairs(pairs.take(i))
            + spec_encode_pair(pairs[i]),
{
    let one = seq![pairs[i]];
    assert(pairs.take(i + 1) =~= pairs.take(i) + one);
    lemma_encode_pairs_append(pairs.take(i), one);
    assert(one.skip(1) =~= Seq::<(Seq<u8>, Seq<u8>)>::empty());
    assert(spec_encode_pairs(Seq::<(Seq<u8>, Seq<u8>)>::empty()) =~= Seq::<u8>::empty());
    assert(spec_encode_pairs(one) =~= spec_encode_pair(pairs[i]));
}

/// Encodes a table as the persisted byte record.
pub fn encode(t: &Table) -> (r: Vec<u8>)
    ensures
        r@ == spec_encode_record(
            t.space.alphabet@,
            t.space.length as u64,
            t.chain_length,
            t.red,
            pairs_view(*t),
        ),
{
    let ghost pv = pairs_view(*t);
    let mut out = u64_to_le_bytes(t.chain_length);
    let mut piece = u64_to_le_bytes(t.chains.len() as u64);
    out.append(&mut piece);
    let mut piece = u64_to_le_bytes(t.space.length as u64);
    out.append(&mut piece);
    out.push(
        match t.red {
            Reduction::StepMixed => 1,
            Reduction::StepBlind => 2,
        },
    );
    let mut piece = u64_to_le_bytes(t.space.alphabet.len() as u64);
    out.append(&mut piece);
    let mut piece = copy_bytes(&t.space.alphabet);
    out.append(&mut piece);
    let ghost header = out@;
    proof {
        assert(header =~= spec_u64_to_le_bytes(t.chain_length) + spec_u64_to_le_bytes(
            pv.len() as u64,
        ) + spec_u64_to_le_bytes(t.space.length as u64) + seq![red_tag(t.red)]
            + spec_u64_to_le_bytes(t.space.alphabet@.len() as u64) + t.space.alphabet@);
    }
    let n: usize = t.chains.len();
    let mut i: usize = 0;
    proof {
        assert(pv.take(0) =~= Seq::<(Seq<u8>, Seq<u8>)>::empty());
        assert(out@ =~= header + spec_encode_pairs(pv.take(0)));
    }
    while i < n
        invariant
            0 <= i <= n,
            n == t.chains@.len(),
            pv == pairs_view(*t),
            out@ == header + spec_encode_pairs(pv.take(i as int)),
        decreases n - i,
    {
        let mut piece = u64_to_le_bytes(t.chains[i].seed.len() as u64);
        out.append(&mut piece);
        let mut piece = copy_bytes(&t.chains[i].seed);
        out.append(&mut piece);
        let mut piece = u64_to_le_bytes(t.chains[i].terminal.len() as u64);
        out.append(&mut piece);
        let mut piece = copy_bytes(&t.chains[i].terminal);
        out.append(&mut piece);
        proof {
            lemma_encode_pairs_snoc(pv, i as int);
            assert(pv[i as int] == (t.chains@[i as int].seed@, t.chains@[i as int].terminal@));
            assert(out@ =~= header + spec_encode_pairs(pv.take(i as int + 1)));
        }
        i = i + 1;
    }
    proof {
        assert(pv.take(n as int) =~= pv);
        assert(out@ =~= spec_encode_record(
            t.space.alphabet@,
            t.space.length as u64,
            t.chain_length,
            t.red,
            pv,
        ));
    }
    out
}

/// Parsing the encoding of a record yields every field back: the format
/// round-trips exactly.
#[verifier::spinoff_prover]
#[verifier::rlimit(60)]
pub proof fn lemma_record_format_round_trip(
    alphabet: Seq<u8>,
    plaintext_length: u64,
    chain_length: u64,
    red: Reduction,
    pairs: Seq<(Seq<u8>, Seq<u8>)>,
)
    requires
        alphabet.len() <= u64::MAX,
        pairs.len() <= u64::MAX,
        forall|i: int|
            0 <= i < pairs.len() ==> (#[trigger] pairs[i]).0.len() <= u64::MAX && pairs[
                i
            ].1.len() <= u64::MAX,
    ensures
        spec_parse_record(
            spec_encode_record(alphabet, plaintext_length, chain_length, red, pairs),
        ) == Some((alphabet, plaintext_length, chain_length, red, pairs)),
{
    let body = spec_encode_pairs(pairs);
    let s = spec_encode_record(alphabet, plaintext_length, chain_length, red, pairs);
    let after_clen = spec_u64_to_le_bytes(pairs.len() as u64) + (spec_u64_to_le_bytes(
        plaintext_length,
    ) + (seq![red_tag(red)] + (spec_u64_to_le_bytes(alphabet.len() as u64) + (alphabet + body))));
    assert(s =~= spec_u64_to_le_bytes(chain_length) + after_clen);
    lemma_take_u64_round_trip(chain_length, after_clen);
    let after_count = spec_u64_to_le_bytes(plaintext_length) + (seq![red_tag(red)] + (
    spec_u64_to_le_bytes(alphabet.len() as u64) + (alphabet + body)));
    assert(after_clen =~= spec_u64_to_le_bytes(pairs.len() as u64) + after_count);
    lemma_take_u64_round_trip(pairs.len() as u64, after_count);
    let after_plen = seq![red_tag(red)] + (spec_u64_to_le_bytes(alphabet.len() as u64) + (alphabet
        + body));
    assert(after_count =~= spec_u64_to_le_bytes(plaintext_length) + after_plen);
    lemma_take_u64_round_trip(plaintext_length, after_plen);
    assert(after_plen[0] == red_tag(red));
    let after_tag = spec_u64_to_le_bytes(alphabet.len() as u64) + (alphabet + body);
    assert(after_plen.skip(1) =~= after_tag);
    lemma_take_u64_round_trip(alphabet.len() as u64, alphabet + body);
    lemma_take_bytes_round_trip(alphabet, body);
    assert(body =~= spec_encode_pairs(pairs) + Seq::<u8>::empty());
    lemma_parse_pairs_round_trip(pairs, Seq::<u8>::empty());
}

/// The round trip is exact: the encoding of a well-formed table is always
/// loadable, and parses back to exactly the table's own parameters and
/// pairs — so decoding what encode produced reproduces the table.
pub proof fn lemma_table_round_trip(t: Table)
    requires
        t.wf(),
        t.chains@.len() <= u64::MAX,
        t.space.alphabet@.len() <= u64::MAX,
        forall|i: int|
            0 <= i < t.chains@.len() ==> (#[trigger] t.chains@[i]).seed@.len() <= u64::MAX
                && t.chains@[i].terminal@.len() <= u64::MAX,
    ensures
        spec_record_loadable(
            spec_encode_record(
                t.space.alphabet@,
                t.space.length as u64,
                t.chain_length,
                t.red,
                pairs_view(t),
            ),
        ),
        spec_parse_record(
            spec_encode_record(
                t.space.alphabet@,
                t.space.length as u64,
                t.chain_length,
                t.red,
                pairs_view(t),
            ),
        ) == Some((t.space.alphabet@, t.space.length as u64, t.chain_length, t.red, pairs_view(t))),
{
    let pv = pairs_view(t);
    assert(forall|i: int|
        0 <= i < pv.len() ==> (#[trigger] pv[i]) == (
            t.chains@[i].seed@,
            t.chains@[i].terminal@,
        ));
    lemma_record_format_round_trip(
        t.space.alphabet@,
        t.space.length as u64,
        t.chain_length,
        t.red,
        pv,
    );
    assert forall|i: int| 0 <= i < pv.len() - 1 implies lex_le(
        (#[trigger] pv[i]).1,
        pv[i + 1].1,
    ) by {
        assert(lex_le(t.chains@[i].terminal@, t.chains@[i + 1].terminal@));
    }
    assert forall|i: int, j: int| 0 <= i < j < pv.len() implies (#[trigger] pv[i]).0 != (
    #[trigger] pv[j]).0 by {
        assert(t.chains@[i].seed@ != t.chains@[j].seed@);
    }
}

} // verus!
