//! The bounded plaintext space: a fixed alphabet of distinct symbols and a
//! fixed plaintext length, together with uniform sampling from it.

use rand::seq::SliceRandom;
use vstd::arithmetic::div_mod::lemma_fundamental_div_mod;
use vstd::arithmetic::power::lemma_pow_division_inequality;
use vstd::arithmetic::power::lemma_pow_increases;
use vstd::arithmetic::power::pow;
use vstd::prelude::*;

verus! {

/// A fixed alphabet and a fixed plaintext length. Every plaintext the
/// system produces is `length` symbols drawn from `alphabet`.
pub struct PlaintextSpace {
    pub alphabet: Vec<u8>,
    pub length: usize,
}

impl PlaintextSpace {
    /// The alphabet is nonempty and free of repeated symbols, and plaintexts
    /// have at least one symbol.
    pub open spec fn wf(self) -> bool {
        &&& self.alphabet@.len() >= 1
        &&& self.length >= 1
        &&& forall|i: int, j: int|
            0 <= i < j < self.alphabet@.len() ==> self.alphabet@[i] != self.alphabet@[j]
    }

    /// A byte string is a plaintext of this space: right length, every
    /// symbol from the alphabet.
    pub open spec fn is_plaintext(self, p: Seq<u8>) -> bool {
        p.len() == self.length && forall|i: int| 0 <= i < p.len() ==> self.alphabet@.contains(p[i])
    }

    /// Builds a space after checking the alphabet is nonempty and has no
    /// repeated symbol and the length is positive; `None` exactly when one
    /// of those fails.
    pub fn new(alphabet: Vec<u8>, length: usize) -> (r: Option<PlaintextSpace>)
        ensures
            match r {
                Some(s) => s.wf() && s.alphabet@ == alphabet@ && s.length == length,
                None => !(PlaintextSpace { alphabet, length }).wf(),
            },
    {
        if length == 0 || alphabet.len() == 0 {
            return None;
        }
        let n: usize = alphabet.len();
        let mut i: usize = 0;
        while i < n
            invariant
                0 <= i <= n,
                n == alphabet@.len(),
                forall|p: int, q: int| 0 <= p < q < alphabet@.len() && p < i ==> alphabet@[p] != alphabet@[q],
            decreases n - i,
        {
            let mut j: usize = i + 1;
            while j < n
                invariant
                    i < j <= n,
                    n == alphabet@.len(),
                    forall|q: int| i < q < j ==> alphabet@[i as int] != alphabet@[q],
                decreases n - j,
            {
                if alphabet[i] == alphabet[j] {
                    return None;
                }
                j = j + 1;
            }
            i = i + 1;
        }
        Some(PlaintextSpace { alphabet, length })
    }

    /// A space over the default alphabet: the contiguous ASCII range from
    /// `'0'` through `'z'` (digits, punctuation, upper and lower case).
    pub fn default_space(length: usize) -> (r: Option<PlaintextSpace>)
        ensures
            match r {
                Some(s) => s.wf() && s.length == length && s.alphabet@.len() == 75 && forall|i: int|
                    0 <= i < 75 ==> s.alphabet@[i] == (48 + i) as u8,
                None => length == 0,
            },
    {
        if length == 0 {
            return None;
        }
        let mut alphabet: Vec<u8> = Vec::new();
        let mut c: u8 = 48;
        while c <= 122
            invariant
                48 <= c <= 123,
                alphabet@.len() == c - 48,
                forall|i: int| 0 <= i < alphabet@.len() ==> alphabet@[i] == (48 + i) as u8,
            decreases 123 - c,
        {
            alphabet.push(c);
            c = c + 1;
        }
        Some(PlaintextSpace { alphabet, length })
    }
}

/// Relies on rand::thread_rng and rand's SliceRandom::choose: draws `n`
/// symbols from `alphabet`, each chosen by the thread-local generator. The
/// draw is random, so nothing relates the result to the inputs beyond its
/// length and the origin of its symbols.
#[verifier::external_body]
pub(crate) fn sample_symbols(alphabet: &Vec<u8>, n: usize) -> (r: Vec<u8>)
    requires
        alphabet@.len() >= 1,
    ensures
        r@.len() == n,
        forall|i: int| 0 <= i < r@.len() ==> alphabet@.contains(r@[i]),
{
    let mut rng = rand::thread_rng();
    let mut out: Vec<u8> = Vec::with_capacity(n);
    for _ in 0..n {
        out.push(*alphabet.as_slice().choose(&mut rng).unwrap());
    }
    out
}

/// The number of distinct plaintexts a space holds: one per way of filling
/// `length` positions from the alphabet.
pub open spec fn space_count(space: PlaintextSpace) -> int {
    pow(space.alphabet@.len() as int, space.length as nat)
}

/// The plaintext standing at position `k` of the space's enumeration:
/// the base-`b` digits of `k`, least significant first, each mapped to its
/// alphabet symbol.
pub open spec fn nth_plain(alphabet: Seq<u8>, len: nat, k: int) -> Seq<u8>
    decreases len,
{
    if len == 0 {
        Seq::empty()
    } else {
        seq![alphabet[k % alphabet.len() as int]] + nth_plain(
            alphabet,
            (len - 1) as nat,
            k / alphabet.len() as int,
        )
    }
}

/// Distinct positions below the space count enumerate distinct plaintexts:
/// base-`b` digit strings of a fixed width represent each number once.
pub proof fn lemma_nth_plain_injective(alphabet: Seq<u8>, len: nat, k1: int, k2: int)
    requires
        alphabet.len() >= 1,
        forall|i: int, j: int| 0 <= i < j < alphabet.len() ==> alphabet[i] != alphabet[j],
        0 <= k1 < pow(alphabet.len() as int, len),
        0 <= k2 < pow(alphabet.len() as int, len),
        k1 != k2,
    ensures
        nth_plain(alphabet, len, k1) != nth_plain(alphabet, len, k2),
    decreases len,
{
    reveal(pow);
    let b = alphabet.len() as int;
    if len == 0 {
        assert(pow(b, 0) == 1);
    } else {
        let p1 = nth_plain(alphabet, len, k1);
        let p2 = nth_plain(alphabet, len, k2);
        assert(p1[0] == alphabet[k1 % b]);
        assert(p2[0] == alphabet[k2 % b]);
        assert(0 <= k1 % b < b);
        assert(0 <= k2 % b < b);
        if k1 % b != k2 % b {
            assert(alphabet[k1 % b] != alphabet[k2 % b]) by {
                if k1 % b < k2 % b {
                    assert(alphabet[k1 % b] != alphabet[k2 % b]);
                } else {
                    assert(alphabet[k2 % b] != alphabet[k1 % b]);
                }
            }
            assert(p1[0] != p2[0]);
        } else {
            lemma_fundamental_div_mod(k1, b);
            lemma_fundamental_div_mod(k2, b);
            assert(k1 / b != k2 / b);
            lemma_pow_division_inequality(k1 as nat, alphabet.len(), len, 1);
            lemma_pow_division_inequality(k2 as nat, alphabet.len(), len, 1);
            assert(pow(b, 1) == b * pow(b, 0));
            assert(pow(b, 0) == 1);
            assert(k1 / b < pow(b, (len - 1) as nat));
            assert(k2 / b < pow(b, (len - 1) as nat));
            lemma_nth_plain_injective(alphabet, (len - 1) as nat, k1 / b, k2 / b);
            assert(p1.skip(1) =~= nth_plain(alphabet, (len - 1) as nat, k1 / b));
            assert(p2.skip(1) =~= nth_plain(alphabet, (len - 1) as nat, k2 / b));
            if p1 == p2 {
                assert(p1.skip(1) == p2.skip(1));
                assert(false);
            }
        }
    }
}

impl PlaintextSpace {
    /// Decides whether the space holds at least `bound` distinct
    /// plaintexts, without ever overflowing.
    pub fn holds_at_least(&self, bound: usize) -> (r: bool)
        requires
            self.wf(),
        ensures
            r == (space_count(*self) >= bound),
    {
        let b: usize = self.alphabet.len();
        let mut acc: u128 = 1;
        let mut e: usize = 0;
        proof {
            reveal(pow);
        }
        while e < self.length
            invariant
                self.wf(),
                0 <= e <= self.length,
                b == self.alphabet@.len(),
                acc == pow(b as int, e as nat),
            decreases self.length - e,
        {
            if acc >= bound as u128 {
                proof {
                    lemma_pow_increases(self.alphabet@.len(), e as nat, self.length as nat);
                }
                return true;
            }
            proof {
                assert(acc < bound);
                assert(acc * (b as u128) <= u128::MAX) by (nonlinear_arith)
                    requires
                        0 <= acc < 0x1_0000_0000_0000_0000u128,
                        0 <= (b as u128) < 0x1_0000_0000_0000_0000u128,
                {}
                reveal(pow);
                assert(pow(b as int, (e + 1) as nat) == (b as int) * pow(b as int, e as nat));
            }
            acc = acc * (b as u128);
            e = e + 1;
        }
        acc >= bound as u128
    }

    /// The plaintext at position `k` of the space's enumeration.
    pub fn nth_plaintext(&self, k: usize) -> (r: Vec<u8>)
        requires
            self.wf(),
        ensures
            r@ == nth_plain(self.alphabet@, self.length as nat, k as int),
            self.is_plaintext(r@),
    {
        let b: usize = self.alphabet.len();
        let mut out: Vec<u8> = Vec::new();
        let mut cur: usize = k;
        let mut j: usize = 0;
        while j < self.length
            invariant
                self.wf(),
                0 <= j <= self.length,
                b == self.alphabet@.len(),
                out@.len() == j,
                forall|i: int| 0 <= i < out@.len() ==> self.alphabet@.contains(out@[i]),
                nth_plain(self.alphabet@, self.length as nat, k as int) =~= out@ + nth_plain(
                    self.alphabet@,
                    (self.length - j) as nat,
                    cur as int,
                ),
            decreases self.length - j,
        {
            let d: usize = cur % b;
            out.push(self.alphabet[d]);
            cur = cur / b;
            j = j + 1;
        }
        proof {
            assert(nth_plain(self.alphabet@, 0, cur as int) =~= Seq::<u8>::empty());
            assert(out@ + Seq::<u8>::empty() =~= out@);
        }
        out
    }

    /// Samples one uniformly random plaintext of this space.
    pub fn sample(&self) -> (r: Vec<u8>)
        requires
            self.wf(),
        ensures
            self.is_plaintext(r@),
    {
        sample_symbols(&self.alphabet, self.length)
    }
}

} // verus!
