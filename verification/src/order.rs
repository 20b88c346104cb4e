//! Lexicographic order on byte strings: the total order under which the
//! chain index is sorted and binary-searched.

use vstd::prelude::*;

verus! {

/// `a` is lexicographically at most `b`.
pub open spec fn lex_le(a: Seq<u8>, b: Seq<u8>) -> bool
    decreases a.len(),
{
    if a.len() == 0 {
        true
    } else if b.len() == 0 {
        false
    } else if a[0] < b[0] {
        true
    } else if a[0] > b[0] {
        false
    } else {
        lex_le(a.skip(1), b.skip(1))
    }
}

/// `a` is lexicographically strictly below `b`.
pub open spec fn lex_lt(a: Seq<u8>, b: Seq<u8>) -> bool {
    lex_le(a, b) && a != b
}

/// The order is reflexive.
pub proof fn lemma_lex_refl(a: Seq<u8>)
    ensures
        lex_le(a, a),
    decreases a.len(),
{
    if a.len() > 0 {
        lemma_lex_refl(a.skip(1));
    }
}

/// Byte strings below and above each other are equal.
pub proof fn lemma_lex_antisym(a: Seq<u8>, b: Seq<u8>)
    requires
        lex_le(a, b),
        lex_le(b, a),
    ensures
        a == b,
    decreases a.len(),
{
    if a.len() == 0 {
        assert(b.len() == 0);
        assert(a =~= b);
    } else {
        lemma_lex_antisym(a.skip(1), b.skip(1));
        assert(a =~= seq![a[0]] + a.skip(1));
        assert(b =~= seq![b[0]] + b.skip(1));
    }
}

/// The order is transitive.
pub proof fn lemma_lex_trans(a: Seq<u8>, b: Seq<u8>, c: Seq<u8>)
    requires
        lex_le(a, b),
        lex_le(b, c),
    ensures
        lex_le(a, c),
    decreases a.len(),
{
    if a.len() == 0 || b.len() == 0 || c.len() == 0 {
    } else if a[0] == b[0] && b[0] == c[0] {
        lemma_lex_trans(a.skip(1), b.skip(1), c.skip(1));
    }
}

/// Three-way comparison outcome for byte strings.
#[derive(PartialEq, Eq, Structural, Clone, Copy, Debug)]
pub enum BytesOrder {
    Below,
    Same,
    Above,
}

/// Three-way lexicographic comparison of two byte strings.
pub fn compare_bytes(a: &Vec<u8>, b: &Vec<u8>) -> (r: BytesOrder)
    ensures
        r == BytesOrder::Below ==> lex_lt(a@, b@),
        r == BytesOrder::Same ==> a@ == b@,
        r == BytesOrder::Above ==> lex_lt(b@, a@),
{
    let mut i: usize = 0;
    let n: usize = if a.len() < b.len() {
        a.len()
    } else {
        b.len()
    };
    while i < n
        invariant
            0 <= i <= n,
            n <= a@.len(),
            n <= b@.len(),
            n == if a@.len() < b@.len() {
                a@.len()
            } else {
                b@.len()
            },
            forall|j: int| 0 <= j < i ==> a@[j] == b@[j],
        decreases n - i,
    {
        if a[i] < b[i] {
            proof {
                lemma_lex_skip_prefix(a@, b@, i as int);
                assert(a@.skip(i as int)[0] == a@[i as int]);
                assert(b@.skip(i as int)[0] == b@[i as int]);
                assert(a@[i as int] != b@[i as int]);
                assert(a@ != b@);
            }
            return BytesOrder::Below;
        }
        if a[i] > b[i] {
            proof {
                lemma_lex_skip_prefix(b@, a@, i as int);
                assert(b@.skip(i as int)[0] == b@[i as int]);
                assert(a@.skip(i as int)[0] == a@[i as int]);
                assert(a@ != b@);
            }
            return BytesOrder::Above;
        }
        i = i + 1;
    }
    if a.len() == b.len() {
        proof {
            assert(a@ =~= b@);
        }
        BytesOrder::Same
    } else if a.len() < b.len() {
        proof {
            lemma_lex_skip_prefix(a@, b@, n as int);
            assert(a@.skip(n as int).len() == 0);
            assert(a@.len() != b@.len());
        }
        BytesOrder::Below
    } else {
        proof {
            lemma_lex_skip_prefix(b@, a@, n as int);
            assert(b@.skip(n as int).len() == 0);
            assert(a@.len() != b@.len());
        }
        BytesOrder::Above
    }
}

/// An owned copy of a byte string, equal to it byte for byte.
pub fn copy_bytes(a: &Vec<u8>) -> (r: Vec<u8>)
    ensures
        r@ == a@,
{
    let mut out: Vec<u8> = Vec::new();
    let n: usize = a.len();
    let mut i: usize = 0;
    while i < n
        invariant
            0 <= i <= n,
            n == a@.len(),
            out@ =~= a@.take(i as int),
        decreases n - i,
    {
        out.push(a[i]);
        i = i + 1;
    }
    proof {
        assert(out@ =~= a@);
    }
    out
}

/// When the first `i` bytes agree, the comparison is decided by the tails.
pub proof fn lemma_lex_skip_prefix(a: Seq<u8>, b: Seq<u8>, i: int)
    requires
        0 <= i <= a.len(),
        i <= b.len(),
        forall|j: int| 0 <= j < i ==> a[j] == b[j],
    ensures
        lex_le(a, b) == lex_le(a.skip(i), b.skip(i)),
    decreases i,
{
    if i > 0 {
        assert(a.len() > 0 && b.len() > 0);
        assert(a[0] == b[0]);
        assert(forall|j: int| 0 <= j < i - 1 ==> a.skip(1)[j] == b.skip(1)[j]);
        lemma_lex_skip_prefix(a.skip(1), b.skip(1), i - 1);
        assert(a.skip(1).skip(i - 1) =~= a.skip(i));
        assert(b.skip(1).skip(i - 1) =~= b.skip(i));
        assert(lex_le(a, b) == lex_le(a.skip(1), b.skip(1)));
    } else {
        assert(a.skip(0) =~= a);
        assert(b.skip(0) =~= b);
    }
}

} // verus!
