//! The table: a fixed set of chains with pairwise-distinct seeds, kept
//! sorted by terminal hash so that lookups can binary-search it.

use vstd::prelude::*;

use crate::chain::chain_terminal;
use crate::chain::forward_all;
use crate::chain::Chain;
use crate::order::compare_bytes;
use crate::order::lemma_lex_antisym;
use crate::order::lemma_lex_refl;
use crate::order::lemma_lex_trans;
use crate::order::lex_le;
use crate::order::BytesOrder;
use crate::reduce::Reduction;
use crate::space::nth_plain;
use crate::space::lemma_nth_plain_injective;
use crate::space::space_count;
use crate::space::PlaintextSpace;
use vstd::set_lib::lemma_len_subset;

verus! {

/// A built rainbow table: its construction parameters and its chains,
/// sorted by terminal hash.
pub struct Table {
    pub space: PlaintextSpace,
    pub chain_length: u64,
    pub chain_count: usize,
    pub red: Reduction,
    pub chains: Vec<Chain>,
}

/// The chains are sorted by terminal hash under the lexicographic order.
pub open spec fn sorted_by_terminal(chains: Seq<Chain>) -> bool {
    forall|i: int, j: int|
        0 <= i < j < chains.len() ==> lex_le(chains[i].terminal@, chains[j].terminal@)
}

/// No two chains start from the same seed.
pub open spec fn seeds_distinct(chains: Seq<Chain>) -> bool {
    forall|i: int, j: int| 0 <= i < j < chains.len() ==> chains[i].seed@ != chains[j].seed@
}

/// No two chains end in the same terminal: the table is free of merges.
pub open spec fn terminals_distinct(chains: Seq<Chain>) -> bool {
    forall|i: int, j: int|
        0 <= i < j < chains.len() ==> (#[trigger] chains[i]).terminal@ != (
        #[trigger] chains[j]).terminal@
}

/// The byte string is one of the given seeds.
pub open spec fn seed_among(seed: Seq<u8>, seeds: Seq<Vec<u8>>) -> bool {
    exists|j: int| 0 <= j < seeds.len() && seed == (#[trigger] seeds[j])@
}

/// Every chain starts from one of the given seeds.
pub open spec fn seeds_drawn_from(chains: Seq<Chain>, seeds: Seq<Vec<u8>>) -> bool {
    forall|i: int| 0 <= i < chains.len() ==> seed_among((#[trigger] chains[i]).seed@, seeds)
}

impl Table {
    /// The structural invariant of a table: a well-formed space, the stored
    /// count matching the chains held, chains sorted by terminal, and
    /// pairwise-distinct seeds.
    pub open spec fn wf(self) -> bool {
        &&& self.space.wf()
        &&& self.chains@.len() == self.chain_count
        &&& sorted_by_terminal(self.chains@)
        &&& seeds_distinct(self.chains@)
    }

    /// Every stored terminal really is the terminal of the chain its seed
    /// generates: what construction guarantees, over and above structure.
    pub open spec fn chains_valid(self) -> bool {
        forall|i: int|
            0 <= i < self.chains@.len() ==> (#[trigger] self.chains@[i]).terminal@
                == chain_terminal(self.chains@[i].seed@, self.chain_length, self.space, self.red)
    }

    /// Some stored chain ends in `t`.
    pub open spec fn has_terminal(self, t: Seq<u8>) -> bool {
        exists|i: int| 0 <= i < self.chains@.len() && (#[trigger] self.chains@[i]).terminal@ == t
    }

    /// The table covers `t`: some round of some stored chain's replay
    /// hashes to `t`. Only covered hashes can ever be inverted.
    pub open spec fn covers(self, t: Seq<u8>) -> bool {
        exists|i: int, r: int|
            0 <= i < self.chains@.len() && 0 <= r <= self.chain_length
                && #[trigger] crate::chain::chain_hash(
                self.chains@[i].seed@,
                r,
                self.space,
                self.red,
            ) == t
    }

    /// Some stored chain's replay hashes to `t` strictly before its final
    /// round: the positions the row check probes.
    pub open spec fn covers_interior(self, t: Seq<u8>) -> bool {
        exists|i: int, r: int|
            0 <= i < self.chains@.len() && 0 <= r < self.chain_length
                && #[trigger] crate::chain::chain_hash(
                self.chains@[i].seed@,
                r,
                self.space,
                self.red,
            ) == t
    }
}

/// Why a table could not be built.
#[derive(PartialEq, Eq, Structural, Clone, Copy, Debug)]
pub enum BuildError {
    /// The plaintext space holds fewer distinct plaintexts than the number
    /// of chains asked for, so pairwise-distinct seeds cannot be sourced.
    SpaceTooSmall,
    /// Explicitly supplied seeds repeat a value.
    DuplicateSeed,
}

/// Whether the byte strings held are pairwise distinct.
pub(crate) fn all_distinct(seeds: &Vec<Vec<u8>>) -> (r: bool)
    ensures
        r == (forall|i: int, j: int|
            0 <= i < j < seeds@.len() ==> (#[trigger] seeds@[i])@ != (#[trigger] seeds@[j])@),
{
    let n: usize = seeds.len();
    let mut i: usize = 0;
    while i < n
        invariant
            0 <= i <= n,
            n == seeds@.len(),
            forall|p: int, q: int|
                0 <= p < q < seeds@.len() && p < i ==> (#[trigger] seeds@[p])@ != (
                #[trigger] seeds@[q])@,
        decreases n - i,
    {
        let mut j: usize = i + 1;
        while j < n
            invariant
                i < j <= n,
                n == seeds@.len(),
                forall|q: int| i < q < j ==> (#[trigger] seeds@[q])@ != seeds@[i as int]@,
            decreases n - j,
        {
            match compare_bytes(&seeds[i], &seeds[j]) {
                BytesOrder::Same => {
                    return false;
                },
                _ => {},
            }
            j = j + 1;
        }
        i = i + 1;
    }
    true
}

/// Whether some held byte string equals `x`.
pub(crate) fn contains_bytes(seeds: &Vec<Vec<u8>>, x: &Vec<u8>) -> (r: bool)
    ensures
        r == (exists|i: int| 0 <= i < seeds@.len() && (#[trigger] seeds@[i])@ == x@),
{
    let n: usize = seeds.len();
    let mut i: usize = 0;
    while i < n
        invariant
            0 <= i <= n,
            n == seeds@.len(),
            forall|p: int| 0 <= p < i ==> (#[trigger] seeds@[p])@ != x@,
        decreases n - i,
    {
        match compare_bytes(&seeds[i], x) {
            BytesOrder::Same => {
                proof {
                    assert((seeds@[i as int])@ == x@);
                }
                return true;
            },
            _ => {},
        }
        i = i + 1;
    }
    false
}

/// The byte string stands in the space's enumeration before position `k`.
pub open spec fn enumerated_before(x: Seq<u8>, alphabet: Seq<u8>, len: nat, k: int) -> bool {
    exists|j: int| 0 <= j < k && x == #[trigger] nth_plain(alphabet, len, j)
}

/// Collects exactly `count` pairwise-distinct seed plaintexts: a batch of
/// uniformly random samples, kept when fresh, and any shortfall filled from
/// the space's enumeration, skipping values already drawn — so the
/// collection always terminates with distinct seeds.
pub(crate) fn sample_seeds(space: &PlaintextSpace, count: usize) -> (r: Vec<Vec<u8>>)
    requires
        space.wf(),
        space_count(*space) >= count,
    ensures
        r@.len() == count,
        forall|i: int, j: int|
            0 <= i < j < r@.len() ==> (#[trigger] r@[i])@ != (#[trigger] r@[j])@,
        forall|i: int| 0 <= i < r@.len() ==> space.is_plaintext((#[trigger] r@[i])@),
{
    let mut seeds: Vec<Vec<u8>> = Vec::new();
    let mut i: usize = 0;
    while i < count
        invariant
            0 <= i <= count,
            space.wf(),
            seeds@.len() <= i,
            forall|p: int, q: int|
                0 <= p < q < seeds@.len() ==> (#[trigger] seeds@[p])@ != (#[trigger] seeds@[q])@,
            forall|p: int| 0 <= p < seeds@.len() ==> space.is_plaintext((#[trigger] seeds@[p])@),
        decreases count - i,
    {
        let cand = space.sample();
        if !contains_bytes(&seeds, &cand) {
            seeds.push(cand);
        }
        i = i + 1;
    }
    let ghost s0 = seeds@;
    let ghost s0views = s0.map_values(|v: Vec<u8>| v@);
    let ghost s0vals = s0views.to_set();
    let ghost m = s0.len() as int;
    let ghost mut hitset = Set::<Seq<u8>>::empty();
    proof {
        broadcast use vstd::set::group_set_axioms;
        broadcast use vstd::seq_lib::seq_to_set_is_finite;

    }
    let mut k: usize = 0;
    while seeds.len() < count
        invariant
            space.wf(),
            space_count(*space) >= count,
            s0views == s0.map_values(|v: Vec<u8>| v@),
            s0vals == s0views.to_set(),
            s0vals.finite(),
            m == s0.len(),
            m <= seeds@.len() <= count,
            0 <= k <= count,
            forall|p: int| 0 <= p < m ==> seeds@[p] == s0[p],
            forall|p: int|
                m <= p < seeds@.len() ==> enumerated_before(
                    (#[trigger] seeds@[p])@,
                    space.alphabet@,
                    space.length as nat,
                    k as int,
                ),
            hitset.finite(),
            hitset.subset_of(s0vals),
            forall|x: Seq<u8>|
                hitset.contains(x) ==> enumerated_before(
                    x,
                    space.alphabet@,
                    space.length as nat,
                    k as int,
                ),
            seeds@.len() + hitset.len() == m + k,
            forall|p: int, q: int|
                0 <= p < q < seeds@.len() ==> (#[trigger] seeds@[p])@ != (#[trigger] seeds@[q])@,
            forall|p: int| 0 <= p < seeds@.len() ==> space.is_plaintext((#[trigger] seeds@[p])@),
        decreases count - k,
    {
        proof {
            lemma_len_subset(hitset, s0vals);
            s0views.lemma_cardinality_of_set();
            assert(s0views.len() == m);
            assert(hitset.len() <= m);
            assert(k < count);
        }
        let cand = space.nth_plaintext(k);
        let ghost candv = cand@;
        if contains_bytes(&seeds, &cand) {
            proof {
                broadcast use vstd::set::group_set_axioms;

                let idx = choose|p: int| 0 <= p < seeds@.len() && (#[trigger] seeds@[p])@ == candv;
                assert(idx < m) by {
                    if idx >= m {
                        let j = choose|j: int|
                            0 <= j < k && seeds@[idx]@ == #[trigger] nth_plain(
                                space.alphabet@,
                                space.length as nat,
                                j,
                            );
                        lemma_nth_plain_injective(
                            space.alphabet@,
                            space.length as nat,
                            j,
                            k as int,
                        );
                    }
                }
                assert(s0views[idx] == candv);
                assert(s0views.contains(candv));
                assert(s0vals.contains(candv));
                assert(!hitset.contains(candv)) by {
                    if hitset.contains(candv) {
                        let j = choose|j: int|
                            0 <= j < k && candv == #[trigger] nth_plain(
                                space.alphabet@,
                                space.length as nat,
                                j,
                            );
                        lemma_nth_plain_injective(
                            space.alphabet@,
                            space.length as nat,
                            j,
                            k as int,
                        );
                    }
                }
                hitset = hitset.insert(candv);
            }
        } else {
            seeds.push(cand);
            proof {
                assert(seeds@.last()@ == nth_plain(
                    space.alphabet@,
                    space.length as nat,
                    k as int,
                ));
            }
        }
        k = k + 1;
    }
    seeds
}

impl Table {
    /// Builds a table: sources `chain_count` pairwise-distinct seeds from
    /// `space`, computes each chain's terminal over `chain_length` rounds,
    /// and keeps the chains sorted by terminal hash. Fails, before any
    /// chain is computed, exactly when the space cannot supply that many
    /// distinct seeds.
    pub fn build(
        space: PlaintextSpace,
        chain_length: u64,
        chain_count: usize,
        red: Reduction,
    ) -> (r: Result<Table, BuildError>)
        requires
            space.wf(),
            chain_count >= 1,
        ensures
            match r {
                Ok(t) => {
                    &&& t.wf()
                    &&& t.chains_valid()
                    &&& t.space == space
                    &&& t.chain_length == chain_length
                    &&& t.chain_count == chain_count
                    &&& t.red == red
                    &&& space_count(space) >= chain_count
                    &&& forall|i: int|
                        0 <= i < t.chains@.len() ==> space.is_plaintext(
                            (#[trigger] t.chains@[i]).seed@,
                        )
                },
                Err(e) => e == BuildError::SpaceTooSmall && space_count(space) < chain_count,
            },
    {
        if !space.holds_at_least(chain_count) {
            return Err(BuildError::SpaceTooSmall);
        }
        let seeds = sample_seeds(&space, chain_count);
        let chains = assemble(&seeds, chain_length, &space, red);
        proof {
            assert forall|i: int| 0 <= i < chains@.len() implies space.is_plaintext(
                (#[trigger] chains@[i]).seed@,
            ) by {
                assert(seed_among(chains@[i].seed@, seeds@));
                let j = choose|j: int|
                    0 <= j < seeds@.len() && chains@[i].seed@ == (#[trigger] seeds@[j])@;
                assert(space.is_plaintext(seeds@[j]@));
            }
        }
        Ok(
            Table {
                space,
                chain_length,
                chain_count,
                red,
                chains,
            },
        )
    }

    /// Builds a table from explicitly supplied seeds, one chain per seed,
    /// sorted by terminal hash. Fails, before any chain is computed,
    /// exactly when two seeds repeat a value.
    pub fn build_from_seeds(
        space: PlaintextSpace,
        chain_length: u64,
        seeds: Vec<Vec<u8>>,
        red: Reduction,
    ) -> (r: Result<Table, BuildError>)
        requires
            space.wf(),
        ensures
            match r {
                Ok(t) => {
                    &&& t.wf()
                    &&& t.chains_valid()
                    &&& t.space == space
                    &&& t.chain_length == chain_length
                    &&& t.chain_count == seeds@.len()
                    &&& t.red == red
                    &&& forall|i: int, j: int|
                        0 <= i < j < seeds@.len() ==> (#[trigger] seeds@[i])@ != (
                        #[trigger] seeds@[j])@
                    &&& seeds_drawn_from(t.chains@, seeds@)
                },
                Err(e) => {
                    &&& e == BuildError::DuplicateSeed
                    &&& exists|i: int, j: int|
                        0 <= i < j < seeds@.len() && (#[trigger] seeds@[i])@ == (
                        #[trigger] seeds@[j])@
                },
            },
    {
        if !all_distinct(&seeds) {
            return Err(BuildError::DuplicateSeed);
        }
        let chain_count = seeds.len();
        let chains = assemble(&seeds, chain_length, &space, red);
        Ok(
            Table {
                space,
                chain_length,
                chain_count,
                red,
                chains,
            },
        )
    }
}

/// Computes one chain per seed and arranges the chains into the sorted
/// order the index requires, inserting each at its place.
pub(crate) fn assemble(
    seeds: &Vec<Vec<u8>>,
    chain_length: u64,
    space: &PlaintextSpace,
    red: Reduction,
) -> (chains: Vec<Chain>)
    requires
        space.wf(),
        forall|i: int, j: int|
            0 <= i < j < seeds@.len() ==> (#[trigger] seeds@[i])@ != (#[trigger] seeds@[j])@,
    ensures
        chains@.len() == seeds@.len(),
        sorted_by_terminal(chains@),
        seeds_distinct(chains@),
        forall|i: int|
            0 <= i < chains@.len() ==> (#[trigger] chains@[i]).terminal@ == chain_terminal(
                chains@[i].seed@,
                chain_length,
                *space,
                red,
            ),
        seeds_drawn_from(chains@, seeds@),
{
    let ghost n = seeds@.len();
    let mut computed = forward_all(seeds, chain_length, space, red);
    let ghost seeds0 = seeds@;
    let mut chains: Vec<Chain> = Vec::new();
    while computed.len() > 0
        invariant
            space.wf(),
            seeds0 == seeds@,
            n == seeds0.len(),
            computed@.len() <= n,
            chains@.len() + computed@.len() == n,
            forall|i: int, j: int|
                0 <= i < j < seeds0.len() ==> (#[trigger] seeds0[i])@ != (#[trigger] seeds0[j])@,
            forall|i: int|
                0 <= i < computed@.len() ==> (#[trigger] computed@[i]).seed@ == seeds0[i]@
                    && computed@[i].terminal@ == chain_terminal(
                    seeds0[i]@,
                    chain_length,
                    *space,
                    red,
                ),
            sorted_by_terminal(chains@),
            forall|i: int|
                0 <= i < chains@.len() ==> exists|j: int|
                    computed@.len() <= j < n && (#[trigger] chains@[i]).seed@ == seeds0[j]@,
            forall|i: int|
                0 <= i < chains@.len() ==> (#[trigger] chains@[i]).terminal@ == chain_terminal(
                    chains@[i].seed@,
                    chain_length,
                    *space,
                    red,
                ),
            seeds_distinct(chains@),
        decreases computed@.len(),
    {
        let c = computed.pop().unwrap();
        let ghost oldchains = chains@;
        let ghost oldlen = computed@.len() + 1;
        let pos = lower_bound(&chains, &c.terminal);
        chains.insert(pos, c);
        proof {
            oldchains.insert_ensures(pos as int, c);
            assert forall|i: int, j: int| 0 <= i < j < chains@.len() implies lex_le(
                (#[trigger] chains@[i]).terminal@,
                (#[trigger] chains@[j]).terminal@,
            ) by {
                if j < pos {
                } else if i < pos && j == pos {
                } else if i < pos && j > pos {
                    lemma_lex_trans(chains@[i].terminal@, c.terminal@, chains@[j].terminal@);
                } else if i == pos && j > pos {
                } else {
                }
            }
            assert forall|i: int| 0 <= i < chains@.len() implies exists|j: int|
                computed@.len() <= j < n && (#[trigger] chains@[i]).seed@ == seeds0[j]@ by {
                if i < pos {
                    let j0 = choose|j: int| oldlen <= j < n && oldchains[i].seed@ == seeds0[j]@;
                    assert(chains@[i].seed@ == seeds0[j0]@);
                } else if i == pos {
                    assert(chains@[i].seed@ == seeds0[computed@.len() as int]@);
                } else {
                    let j0 = choose|j: int| oldlen <= j < n && oldchains[i - 1].seed@ == seeds0[j]@;
                    assert(chains@[i].seed@ == seeds0[j0]@);
                }
            }
            assert forall|i: int, j: int| 0 <= i < j < chains@.len() implies (
            #[trigger] chains@[i]).seed@ != (#[trigger] chains@[j]).seed@ by {
                if i == pos || j == pos {
                    let other = if i == pos {
                        j
                    } else {
                        i
                    };
                    let oi = if other < pos {
                        other
                    } else {
                        other - 1
                    };
                    let j0 = choose|jj: int| oldlen <= jj < n && oldchains[oi].seed@ == seeds0[jj]@;
                    assert(c.seed@ == seeds0[(oldlen - 1) as int]@);
                    assert(seeds0[(oldlen - 1) as int]@ != seeds0[j0]@);
                }
            }
        }
    }
    proof {
        assert forall|i: int| 0 <= i < chains@.len() implies seed_among(
            (#[trigger] chains@[i]).seed@,
            seeds@,
        ) by {
            let j0 = choose|j: int|
                computed@.len() <= j < n && (#[trigger] chains@[i]).seed@ == seeds0[j]@;
            assert(chains@[i].seed@ == (seeds@[j0])@);
        }
    }
    chains
}

/// How many entries of `ts` repeat an earlier entry: each terminal that is
/// not the first occurrence of its value counts once.
pub open spec fn dup_count(ts: Seq<Seq<u8>>) -> nat
    decreases ts.len(),
{
    if ts.len() == 0 {
        0
    } else {
        dup_count(ts.drop_last()) + if exists|j: int|
            0 <= j < ts.len() - 1 && #[trigger] ts[j] == ts[ts.len() - 1] {
            1nat
        } else {
            0nat
        }
    }
}

/// In a sorted sequence an entry repeats an earlier one exactly when it
/// equals its immediate predecessor.
proof fn lemma_dup_adjacent(ts: Seq<Seq<u8>>, i: int)
    requires
        forall|p: int, q: int| 0 <= p < q < ts.len() ==> lex_le(#[trigger] ts[p], #[trigger] ts[q]),
        1 <= i < ts.len(),
    ensures
        (exists|j: int| 0 <= j < i && ts[j] == ts[i]) <==> ts[i - 1] == ts[i],
{
    if exists|j: int| 0 <= j < i && ts[j] == ts[i] {
        let j = choose|j: int| 0 <= j < i && ts[j] == ts[i];
        if j < i - 1 {
            assert(lex_le(ts[j], ts[i - 1]));
            assert(lex_le(ts[i - 1], ts[i]));
            lemma_lex_antisym(ts[i - 1], ts[i]);
        }
    }
}

impl Table {
    /// The stored terminals, in their sorted order.
    pub open spec fn terminals(self) -> Seq<Seq<u8>> {
        self.chains@.map_values(|c: Chain| c.terminal@)
    }

    /// Counts the chains whose terminal repeats an earlier chain's: the
    /// merges that silently reduce the table's coverage. Reported, never an
    /// error.
    pub fn duplicates(&self) -> (r: u64)
        requires
            self.wf(),
        ensures
            r == dup_count(self.terminals()),
    {
        let ghost ts = self.terminals();
        let n: usize = self.chains.len();
        let mut count: u64 = 0;
        if n == 0 {
            return 0;
        }
        let mut i: usize = 1;
        proof {
            assert(ts.take(1).drop_last() =~= ts.take(0));
            assert(dup_count(ts.take(0)) == 0);
        }
        while i < n
            invariant
                1 <= i <= n,
                self.wf(),
                ts == self.terminals(),
                n == self.chains@.len(),
                count <= i - 1,
                count == dup_count(ts.take(i as int)),
            decreases n - i,
        {
            let ghost prefix = ts.take(i as int + 1);
            proof {
                assert(prefix.drop_last() =~= ts.take(i as int));
                assert(prefix[prefix.len() - 1] == ts[i as int]);
                assert forall|p: int, q: int| 0 <= p < q < ts.len() implies lex_le(
                    #[trigger] ts[p],
                    #[trigger] ts[q],
                ) by {
                    assert(ts[p] == self.chains@[p].terminal@);
                    assert(ts[q] == self.chains@[q].terminal@);
                }
                lemma_dup_adjacent(ts, i as int);
                assert((exists|j: int|
                    0 <= j < prefix.len() - 1 && #[trigger] prefix[j] == prefix[prefix.len() - 1])
                    <==> ts[i as int - 1] == ts[i as int]) by {
                    assert(forall|j: int| 0 <= j < prefix.len() ==> prefix[j] == ts[j]);
                }
            }
            match compare_bytes(&self.chains[i - 1].terminal, &self.chains[i].terminal) {
                BytesOrder::Same => {
                    count = count + 1;
                },
                _ => {
                    proof {
                        assert(ts[i as int - 1] != ts[i as int]);
                    }
                },
            }
            i = i + 1;
        }
        proof {
            assert(ts.take(n as int) =~= ts);
        }
        count
    }

    /// The table's storage footprint estimate in bytes: seed plus terminal
    /// width, per chain. `None` exactly when the product does not fit.
    pub fn estimated_size(&self) -> (r: Option<u128>)
        ensures
            match r {
                Some(v) => v == (crate::hash::HASH_WIDTH + self.space.length)
                    * self.chain_count,
                None => (crate::hash::HASH_WIDTH + self.space.length) * self.chain_count
                    > u128::MAX,
            },
    {
        let per_chain: u128 = crate::hash::HASH_WIDTH as u128 + self.space.length as u128;
        per_chain.checked_mul(self.chain_count as u128)
    }
}

/// The index at which a terminal equal to `t` would be inserted to keep the
/// chains sorted: everything before it is at most `t`, everything from it
/// on is at least `t`.
pub(crate) fn lower_bound(chains: &Vec<Chain>, t: &Vec<u8>) -> (pos: usize)
    requires
        sorted_by_terminal(chains@),
    ensures
        pos <= chains@.len(),
        forall|i: int| 0 <= i < pos ==> lex_le((#[trigger] chains@[i]).terminal@, t@),
        forall|i: int| pos <= i < chains@.len() ==> lex_le(t@, (#[trigger] chains@[i]).terminal@),
{
    let mut lo: usize = 0;
    let mut hi: usize = chains.len();
    while lo < hi
        invariant
            0 <= lo <= hi <= chains@.len(),
            sorted_by_terminal(chains@),
            forall|i: int| 0 <= i < lo ==> lex_le((#[trigger] chains@[i]).terminal@, t@),
            forall|i: int| hi <= i < chains@.len() ==> lex_le(t@, (#[trigger] chains@[i]).terminal@),
        decreases hi - lo,
    {
        let mid = lo + (hi - lo) / 2;
        match compare_bytes(&chains[mid].terminal, t) {
            BytesOrder::Below => {
                proof {
                    assert forall|i: int| 0 <= i < mid + 1 implies lex_le(
                        (#[trigger] chains@[i]).terminal@,
                        t@,
                    ) by {
                        if i < mid {
                            lemma_lex_trans(chains@[i].terminal@, chains@[mid as int].terminal@, t@);
                        }
                    }
                }
                lo = mid + 1;
            },
            BytesOrder::Same => {
                proof {
                    lemma_lex_refl(t@);
                    assert forall|i: int| mid <= i < chains@.len() implies lex_le(
                        t@,
                        (#[trigger] chains@[i]).terminal@,
                    ) by {
                        if i > mid {
                            lemma_lex_trans(t@, chains@[mid as int].terminal@, chains@[i].terminal@);
                        }
                    }
                }
                hi = mid;
            },
            BytesOrder::Above => {
                proof {
                    assert forall|i: int| mid <= i < chains@.len() implies lex_le(
                        t@,
                        (#[trigger] chains@[i]).terminal@,
                    ) by {
                        if i > mid {
                            lemma_lex_trans(t@, chains@[mid as int].terminal@, chains@[i].terminal@);
                        }
                    }
                }
                hi = mid;
            },
        }
    }
    lo
}

/// Binary search for a stored terminal equal to `t`: an index of one such
/// chain, or `None` exactly when no chain ends in `t`.
pub(crate) fn find_terminal(chains: &Vec<Chain>, t: &Vec<u8>) -> (r: Option<usize>)
    requires
        sorted_by_terminal(chains@),
    ensures
        match r {
            Some(c) => c < chains@.len() && chains@[c as int].terminal@ == t@,
            None => forall|i: int|
                0 <= i < chains@.len() ==> (#[trigger] chains@[i]).terminal@ != t@,
        },
{
    let mut lo: usize = 0;
    let mut hi: usize = chains.len();
    while lo < hi
        invariant
            0 <= lo <= hi <= chains@.len(),
            sorted_by_terminal(chains@),
            forall|i: int|
                0 <= i < chains@.len() && !(lo <= i < hi) ==> (#[trigger] chains@[i]).terminal@
                    != t@,
        decreases hi - lo,
    {
        let mid = lo + (hi - lo) / 2;
        match compare_bytes(&chains[mid].terminal, t) {
            BytesOrder::Same => {
                return Some(mid);
            },
            BytesOrder::Below => {
                proof {
                    assert forall|i: int| 0 <= i < mid + 1 implies (
                    #[trigger] chains@[i]).terminal@ != t@ by {
                        if chains@[i].terminal@ == t@ {
                            lemma_lex_refl(t@);
                            lemma_lex_antisym(chains@[mid as int].terminal@, t@);
                        }
                    }
                }
                lo = mid + 1;
            },
            BytesOrder::Above => {
                proof {
                    assert forall|i: int| mid <= i < chains@.len() implies (
                    #[trigger] chains@[i]).terminal@ != t@ by {
                        if chains@[i].terminal@ == t@ {
                            lemma_lex_refl(t@);
                            lemma_lex_antisym(t@, chains@[mid as int].terminal@);
                        }
                    }
                }
                hi = mid;
            },
        }
    }
    None
}

} // verus!
