//! Reloading a persisted table: a record of construction parameters and
//! ordered `(seed, terminal)` pairs is accepted only if it is structurally
//! valid — a well-formed space, terminals in sort order, no repeated seed.
//! Anything else is a fatal load error, never partially recovered.

use vstd::prelude::*;

use crate::chain::Chain;
use crate::order::compare_bytes;
use crate::order::lemma_lex_refl;
use crate::order::lemma_lex_trans;
use crate::order::lex_le;
use crate::order::BytesOrder;
use crate::reduce::Reduction;
use crate::space::PlaintextSpace;
use crate::table::Table;

verus! {

/// Why a persisted table was rejected.
#[derive(PartialEq, Eq, Structural, Clone, Copy, Debug)]
pub enum LoadError {
    /// The record is structurally invalid: a bad plaintext space, terminals
    /// out of sort order, or a repeated seed.
    Malformed,
}

/// The pairs' terminals are in sort order, adjacent entry by adjacent
/// entry.
pub open spec fn pairs_sorted(pairs: Seq<(Vec<u8>, Vec<u8>)>) -> bool {
    forall|i: int|
        0 <= i < pairs.len() - 1 ==> lex_le((#[trigger] pairs[i]).1@, pairs[i + 1].1@)
}

/// No two pairs share a seed.
pub open spec fn pairs_seeds_distinct(pairs: Seq<(Vec<u8>, Vec<u8>)>) -> bool {
    forall|i: int, j: int|
        0 <= i < j < pairs.len() ==> (#[trigger] pairs[i]).0@ != (#[trigger] pairs[j]).0@
}

/// A persisted record is structurally valid exactly when its space is
/// well-formed, its terminals are in sort order and its seeds are pairwise
/// distinct.
pub open spec fn record_valid(
    alphabet: Seq<u8>,
    plaintext_length: usize,
    pairs: Seq<(Vec<u8>, Vec<u8>)>,
) -> bool {
    &&& alphabet.len() >= 1
    &&& plaintext_length >= 1
    &&& forall|i: int, j: int| 0 <= i < j < alphabet.len() ==> alphabet[i] != alphabet[j]
    &&& pairs_sorted(pairs)
    &&& pairs_seeds_distinct(pairs)
}

/// Adjacent sortedness extends to every pair of positions.
proof fn lemma_adjacent_sorted(pairs: Seq<(Vec<u8>, Vec<u8>)>, i: int, j: int)
    requires
        pairs_sorted(pairs),
        0 <= i <= j < pairs.len(),
    ensures
        lex_le(pairs[i].1@, pairs[j].1@),
    decreases j - i,
{
    if i == j {
        lemma_lex_refl(pairs[i].1@);
    } else {
        lemma_adjacent_sorted(pairs, i, j - 1);
        lemma_lex_trans(pairs[i].1@, pairs[j - 1].1@, pairs[j].1@);
    }
}

/// Whether the pairs' terminals are in sort order.
fn check_sorted(pairs: &Vec<(Vec<u8>, Vec<u8>)>) -> (r: bool)
    ensures
        r == pairs_sorted(pairs@),
{
    let n: usize = pairs.len();
    if n == 0 {
        return true;
    }
    let mut i: usize = 0;
    while i < n - 1
        invariant
            0 <= i <= n - 1,
            n == pairs@.len(),
            n >= 1,
            forall|p: int| 0 <= p < i ==> lex_le((#[trigger] pairs@[p]).1@, pairs@[p + 1].1@),
        decreases n - 1 - i,
    {
        match compare_bytes(&pairs[i].1, &pairs[i + 1].1) {
            BytesOrder::Above => {
                proof {
                    if pairs_sorted(pairs@) {
                        assert(lex_le(pairs@[i as int].1@, pairs@[i as int + 1].1@));
                        crate::order::lemma_lex_antisym(
                            pairs@[i as int].1@,
                            pairs@[i as int + 1].1@,
                        );
                    }
                }
                return false;
            },
            BytesOrder::Same => {
                proof {
                    lemma_lex_refl(pairs@[i as int].1@);
                }
            },
            BytesOrder::Below => {},
        }
        i = i + 1;
    }
    true
}

/// Whether any two pairs share a seed.
fn check_seeds_distinct(pairs: &Vec<(Vec<u8>, Vec<u8>)>) -> (r: bool)
    ensures
        r == pairs_seeds_distinct(pairs@),
{
    let n: usize = pairs.len();
    let mut i: usize = 0;
    while i < n
        invariant
            0 <= i <= n,
            n == pairs@.len(),
            forall|p: int, q: int|
                0 <= p < q < pairs@.len() && p < i ==> (#[trigger] pairs@[p]).0@ != (
                #[trigger] pairs@[q]).0@,
        decreases n - i,
    {
        let mut j: usize = i + 1;
        while j < n
            invariant
                i < j <= n,
                n == pairs@.len(),
                forall|q: int| i < q < j ==> (#[trigger] pairs@[q]).0@ != pairs@[i as int].0@,
            decreases n - j,
        {
            match compare_bytes(&pairs[i].0, &pairs[j].0) {
                BytesOrder::Same => {
                    return false;
                },
                _ => {},
            }
            j = j + 1;
        }
        i = i + 1;
    }
    true
}

/// The persisted record of a table: its ordered `(seed, terminal)` pairs.
pub open spec fn record_of(t: Table) -> Seq<(Vec<u8>, Vec<u8>)> {
    t.chains@.map_values(|c: Chain| (c.seed, c.terminal))
}

/// The round trip is exact: a well-formed table's own record is always
/// structurally valid, so persisting the parameters with the ordered pairs
/// and loading them back always succeeds and, by the loader's contract,
/// reproduces every parameter and every pair in order.
pub proof fn lemma_record_round_trip(t: Table)
    requires
        t.wf(),
    ensures
        record_valid(t.space.alphabet@, t.space.length, record_of(t)),
        record_of(t).len() == t.chains@.len(),
        forall|i: int|
            0 <= i < t.chains@.len() ==> (#[trigger] record_of(t)[i]).0@ == t.chains@[i].seed@
                && record_of(t)[i].1@ == t.chains@[i].terminal@,
{
    let ps = record_of(t);
    assert(forall|i: int| 0 <= i < ps.len() ==> (#[trigger] ps[i]) == (
        t.chains@[i].seed,
        t.chains@[i].terminal,
    ));
    assert forall|i: int| 0 <= i < ps.len() - 1 implies lex_le(
        (#[trigger] ps[i]).1@,
        ps[i + 1].1@,
    ) by {
        assert(lex_le(t.chains@[i].terminal@, t.chains@[i + 1].terminal@));
    }
}

impl Table {
    /// Rebuilds a table from a persisted record, without recomputing any
    /// chain. The pairs are kept in their stored order; the record is
    /// accepted exactly when it is structurally valid, and a rejected
    /// record yields a fatal error.
    pub fn from_parts(
        alphabet: Vec<u8>,
        plaintext_length: usize,
        chain_length: u64,
        pairs: Vec<(Vec<u8>, Vec<u8>)>,
        red: Reduction,
    ) -> (r: Result<Table, LoadError>)
        ensures
            r.is_ok() == record_valid(alphabet@, plaintext_length, pairs@),
            match r {
                Ok(t) => {
                    &&& t.wf()
                    &&& t.space.alphabet@ == alphabet@
                    &&& t.space.length == plaintext_length
                    &&& t.chain_length == chain_length
                    &&& t.red == red
                    &&& t.chain_count == pairs@.len()
                    &&& t.chains@.len() == pairs@.len()
                    &&& forall|i: int|
                        0 <= i < pairs@.len() ==> (#[trigger] t.chains@[i]).seed@ == pairs@[i].0@
                            && t.chains@[i].terminal@ == pairs@[i].1@
                },
                Err(e) => e == LoadError::Malformed,
            },
    {
        if !check_sorted(&pairs) {
            return Err(LoadError::Malformed);
        }
        if !check_seeds_distinct(&pairs) {
            return Err(LoadError::Malformed);
        }
        let space = match PlaintextSpace::new(alphabet, plaintext_length) {
            Some(s) => s,
            None => {
                return Err(LoadError::Malformed);
            },
        };
        let ghost ps = pairs@;
        let chain_count = pairs.len();
        let n: usize = pairs.len();
        let mut chains: Vec<Chain> = Vec::new();
        let mut i: usize = 0;
        while i < n
            invariant
                0 <= i <= n,
                n == ps.len(),
                ps == pairs@,
                chains@.len() == i,
                forall|p: int|
                    0 <= p < chains@.len() ==> (#[trigger] chains@[p]).seed@ == ps[p].0@
                        && chains@[p].terminal@ == ps[p].1@,
            decreases n - i,
        {
            let c = Chain {
                seed: crate::order::copy_bytes(&pairs[i].0),
                terminal: crate::order::copy_bytes(&pairs[i].1),
            };
            chains.push(c);
            i = i + 1;
        }
        proof {
            assert forall|p: int, q: int| 0 <= p < q < chains@.len() implies lex_le(
                (#[trigger] chains@[p]).terminal@,
                (#[trigger] chains@[q]).terminal@,
            ) by {
                assert(pairs_sorted(ps));
                lemma_adjacent_sorted(ps, p, q);
            }
        }
        Ok(
            Table {
                space,
                chain_length,
                chain_count,
                red,
                chains,
            },
        )
    }
}

} // verus!
