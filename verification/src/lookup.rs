//! The lookup engine: a column check (is the target itself a stored
//! terminal?) followed by a row check (could the target have stood at some
//! position inside a chain?), with every candidate verified by replaying
//! the stored chain before a plaintext is returned.

use vstd::prelude::*;

use crate::chain::chain_hash;
use crate::chain::chain_plain;
use crate::hash::digest_of;
use crate::hash::hash_bytes;
use crate::order::compare_bytes;
use crate::order::copy_bytes;
use crate::order::BytesOrder;
use crate::reduce::reduce;
use crate::table::find_terminal;
use crate::table::terminals_distinct;
use crate::table::Table;

verus! {

impl Table {
    /// Replays the stored chain at index `c` round by round, comparing the
    /// hash of every round against `target`; returns the plaintext of the
    /// first round whose hash equals `target`, and `None` exactly when the
    /// whole replay never passes through it. Whatever is returned is a
    /// verified preimage of `target`.
    fn replay_chain(&self, c: usize, target: &Vec<u8>) -> (r: Option<Vec<u8>>)
        requires
            self.wf(),
            c < self.chains@.len(),
        ensures
            match r {
                Some(p) => digest_of(p@) == target@,
                None => forall|q: int|
                    0 <= q <= self.chain_length ==> #[trigger] chain_hash(
                        self.chains@[c as int].seed@,
                        q,
                        self.space,
                        self.red,
                    ) != target@,
            },
            r.is_some() ==> self.covers(target@),
    {
        let mut p = copy_bytes(&self.chains[c].seed);
        let mut h = hash_bytes(&p);
        let ghost seed = self.chains@[c as int].seed@;
        let mut i: u64 = 0;
        while i < self.chain_length
            invariant
                0 <= i <= self.chain_length,
                self.wf(),
                c < self.chains@.len(),
                seed == self.chains@[c as int].seed@,
                p@ == chain_plain(seed, i as int, self.space, self.red),
                h@ == chain_hash(seed, i as int, self.space, self.red),
                h@ == digest_of(p@),
                h@.len() == crate::hash::HASH_WIDTH,
                forall|q: int|
                    0 <= q < i ==> #[trigger] chain_hash(seed, q, self.space, self.red) != target@,
            decreases self.chain_length - i,
        {
            match compare_bytes(&h, target) {
                BytesOrder::Same => {
                    proof {
                        assert(chain_hash(self.chains@[c as int].seed@, i as int, self.space, self.red)
                            == target@);
                    }
                    return Some(p);
                },
                _ => {
                    proof {
                        assert(chain_hash(seed, i as int, self.space, self.red) != target@);
                    }
                },
            }
            p = reduce(&h, i, &self.space, self.red);
            h = hash_bytes(&p);
            i = i + 1;
        }
        match compare_bytes(&h, target) {
            BytesOrder::Same => {
                proof {
                    assert(chain_hash(self.chains@[c as int].seed@, i as int, self.space, self.red)
                            == target@);
                }
                Some(p)
            },
            _ => {
                proof {
                    assert(chain_hash(seed, i as int, self.space, self.red) != target@);
                }
                None
            },
        }
    }

    /// The fast path: binary-searches the target directly among the stored
    /// terminals and, on a hit, replays that chain to recover the plaintext
    /// hashed in its final round. A plaintext comes back only on a stored
    /// terminal equal to the target, it is always a verified preimage of
    /// `target`, and whenever the stored terminals are the true chain
    /// terminals and the target is one of them, a plaintext is returned.
    pub fn check_column(&self, target: &Vec<u8>) -> (r: Option<Vec<u8>>)
        requires
            self.wf(),
        ensures
            match r {
                Some(p) => digest_of(p@) == target@,
                None => true,
            },
            r.is_some() ==> self.has_terminal(target@),
            r.is_some() ==> self.covers(target@),
            self.chains_valid() && self.has_terminal(target@) ==> r.is_some(),
    {
        match find_terminal(&self.chains, target) {
            Some(c) => {
                let mut p = copy_bytes(&self.chains[c].seed);
                let mut h = hash_bytes(&p);
                let ghost seed = self.chains@[c as int].seed@;
                let mut i: u64 = 0;
                while i < self.chain_length
                    invariant
                        0 <= i <= self.chain_length,
                        self.wf(),
                        c < self.chains@.len(),
                        seed == self.chains@[c as int].seed@,
                        p@ == chain_plain(seed, i as int, self.space, self.red),
                        h@ == chain_hash(seed, i as int, self.space, self.red),
                        h@ == digest_of(p@),
                        h@.len() == crate::hash::HASH_WIDTH,
                    decreases self.chain_length - i,
                {
                    p = reduce(&h, i, &self.space, self.red);
                    h = hash_bytes(&p);
                    i = i + 1;
                }
                match compare_bytes(&h, target) {
                    BytesOrder::Same => {
                        proof {
                            assert(chain_hash(self.chains@[c as int].seed@, i as int, self.space, self.red)
                            == target@);
                            assert(self.chains@[c as int].terminal@ == target@);
                        }
                        Some(p)
                    },
                    _ => {
                        proof {
                            if self.chains_valid() {
                                assert(self.chains@[c as int].terminal@ == target@);
                                assert(h@ == target@);
                                assert(false);
                            }
                        }
                        None
                    },
                }
            },
            None => {
                proof {
                    if self.has_terminal(target@) {
                        let i = choose|i: int|
                            0 <= i < self.chains@.len() && (#[trigger] self.chains@[i]).terminal@
                                == target@;
                        assert(self.chains@[i].terminal@ != target@);
                    }
                }
                None
            },
        }
    }

    /// The fallback path: for each `k` from one to the chain length,
    /// simulates the tail a chain would have if the target stood `k` rounds
    /// before its end, binary-searches the hypothetical terminal, and on a
    /// hit replays the stored chain, returning only a plaintext whose hash
    /// was confirmed equal to the target. A hit whose replay never passes
    /// through the target is a false alarm and the search continues; on a
    /// merge-free table of true terminals, a target standing anywhere
    /// before a chain's final round is always recovered.
    pub fn check_rows(&self, target: &Vec<u8>) -> (r: Option<Vec<u8>>)
        requires
            self.wf(),
        ensures
            match r {
                Some(p) => digest_of(p@) == target@,
                None => true,
            },
            r.is_some() ==> self.covers(target@),
            self.chains_valid() && terminals_distinct(self.chains@) && self.covers_interior(
                target@,
            ) ==> r.is_some(),
    {
        let mut j: u64 = 0;
        while j < self.chain_length
            invariant
                0 <= j <= self.chain_length,
                self.wf(),
                self.chains_valid() && terminals_distinct(self.chains@) ==> forall|
                    i0: int,
                    r0: int,
                |
                    0 <= i0 < self.chains@.len() && self.chain_length - j <= r0
                        < self.chain_length ==> #[trigger] chain_hash(
                        self.chains@[i0].seed@,
                        r0,
                        self.space,
                        self.red,
                    ) != target@,
            decreases self.chain_length - j,
        {
            let k: u64 = j + 1;
            let ghost pos0: int = self.chain_length - k;
            let mut h = copy_bytes(target);
            let mut step: u64 = self.chain_length - k;
            while step < self.chain_length
                invariant
                    pos0 == self.chain_length - k,
                    0 <= pos0 <= step <= self.chain_length,
                    self.wf(),
                    forall|i0: int|
                        0 <= i0 < self.chains@.len() && #[trigger] chain_hash(
                            self.chains@[i0].seed@,
                            pos0,
                            self.space,
                            self.red,
                        ) == target@ ==> h@ == chain_hash(
                            self.chains@[i0].seed@,
                            step as int,
                            self.space,
                            self.red,
                        ),
                decreases self.chain_length - step,
            {
                let ghost oldh = h@;
                let p = reduce(&h, step, &self.space, self.red);
                h = hash_bytes(&p);
                proof {
                    assert forall|i0: int|
                        0 <= i0 < self.chains@.len() && #[trigger] chain_hash(
                            self.chains@[i0].seed@,
                            pos0,
                            self.space,
                            self.red,
                        ) == target@ implies h@ == chain_hash(
                        self.chains@[i0].seed@,
                        step as int + 1,
                        self.space,
                        self.red,
                    ) by {
                        let seed = self.chains@[i0].seed@;
                        assert(oldh == chain_hash(seed, step as int, self.space, self.red));
                        assert(p@ == chain_plain(seed, step as int + 1, self.space, self.red));
                    }
                }
                step = step + 1;
            }
            let ghost probed_clear = self.chains_valid() && terminals_distinct(self.chains@)
                ==> forall|i0: int|
                0 <= i0 < self.chains@.len() ==> #[trigger] chain_hash(
                    self.chains@[i0].seed@,
                    pos0,
                    self.space,
                    self.red,
                ) != target@;
            match find_terminal(&self.chains, &h) {
                Some(c) => {
                    match self.replay_chain(c, target) {
                        Some(p) => {
                            return Some(p);
                        },
                        None => {
                            proof {
                                if self.chains_valid() && terminals_distinct(self.chains@) {
                                    assert forall|i0: int|
                                        0 <= i0 < self.chains@.len() implies #[trigger] chain_hash(
                                        self.chains@[i0].seed@,
                                        pos0,
                                        self.space,
                                        self.red,
                                    ) != target@ by {
                                        if chain_hash(
                                            self.chains@[i0].seed@,
                                            pos0,
                                            self.space,
                                            self.red,
                                        ) == target@ {
                                            assert(h@ == chain_hash(
                                                self.chains@[i0].seed@,
                                                self.chain_length as int,
                                                self.space,
                                                self.red,
                                            ));
                                            assert(self.chains@[i0].terminal@ == h@);
                                            assert(self.chains@[c as int].terminal@ == h@);
                                            assert(c as int == i0);
                                            assert(chain_hash(
                                                self.chains@[c as int].seed@,
                                                pos0,
                                                self.space,
                                                self.red,
                                            ) != target@);
                                        }
                                    }
                                    assert(probed_clear);
                                }
                            }
                        },
                    }
                },
                None => {
                    proof {
                        if self.chains_valid() && terminals_distinct(self.chains@) {
                            assert forall|i0: int|
                                0 <= i0 < self.chains@.len() implies #[trigger] chain_hash(
                                self.chains@[i0].seed@,
                                pos0,
                                self.space,
                                self.red,
                            ) != target@ by {
                                if chain_hash(self.chains@[i0].seed@, pos0, self.space, self.red)
                                    == target@ {
                                    assert(h@ == chain_hash(
                                        self.chains@[i0].seed@,
                                        self.chain_length as int,
                                        self.space,
                                        self.red,
                                    ));
                                    assert(self.chains@[i0].terminal@ == h@);
                                    assert(self.chains@[i0].terminal@ != h@);
                                }
                            }
                            assert(probed_clear);
                        }
                    }
                },
            }
            j = j + 1;
        }
        proof {
            if self.chains_valid() && terminals_distinct(self.chains@) && self.covers_interior(
                target@,
            ) {
                let (i0, r0) = choose|i0: int, r0: int|
                    0 <= i0 < self.chains@.len() && 0 <= r0 < self.chain_length
                        && #[trigger] chain_hash(
                        self.chains@[i0].seed@,
                        r0,
                        self.space,
                        self.red,
                    ) == target@;
                assert(chain_hash(self.chains@[i0].seed@, r0, self.space, self.red) != target@);
            }
        }
        None
    }

    /// Recovers a preimage of `target` if the table covers it: the column
    /// check first (strictly cheaper), then the row check. A returned
    /// plaintext always hashes exactly to `target`; a stored terminal equal
    /// to `target` is always recovered when the stored terminals are the
    /// true chain terminals; on a merge-free table of true terminals every
    /// covered target is recovered; and `None` reports a miss, never an
    /// error.
    pub fn lookup(&self, target: &Vec<u8>) -> (r: Option<Vec<u8>>)
        requires
            self.wf(),
        ensures
            match r {
                Some(p) => digest_of(p@) == target@,
                None => true,
            },
            r.is_some() ==> self.covers(target@),
            self.chains_valid() && self.has_terminal(target@) ==> r.is_some(),
            self.chains_valid() && terminals_distinct(self.chains@) && self.covers_interior(
                target@,
            ) ==> r.is_some(),
    {
        match self.check_column(target) {
            Some(p) => Some(p),
            None => self.check_rows(target),
        }
    }

    /// Any stored terminal of a table whose terminals are the true chain
    /// terminals is itself covered, so the lookup contract promises a
    /// verified preimage for it.
    pub proof fn lemma_terminal_always_recoverable(self, i: int)
        requires
            self.wf(),
            self.chains_valid(),
            0 <= i < self.chains@.len(),
        ensures
            self.has_terminal(self.chains@[i].terminal@),
            self.covers(self.chains@[i].terminal@),
    {
        assert(chain_hash(
            self.chains@[i].seed@,
            self.chain_length as int,
            self.space,
            self.red,
        ) == self.chains@[i].terminal@);
    }
}

} // verus!
