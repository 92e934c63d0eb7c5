//! Searching and comparing raw byte strings.

use vstd::prelude::*;
use vstd::slice::slice_subrange;

verus! {

/// The byte that stands for a separator character: its code point, cut to
/// eight bits.
pub open spec fn separator_byte(at: char) -> u8 {
    #[verifier::truncate]
    (at as u8)
}

/// Splits `bytes` around the first byte equal to `at`. The separator itself
/// belongs to neither half. `None` when `at` does not occur.
pub fn split_bytes_at(bytes: &[u8], at: char) -> (r: Option<(&[u8], &[u8])>)
    ensures
        match bytes@.index_of_first(separator_byte(at)) {
            Some(i) => r matches Some((head, tail)) && head@ == bytes@.subrange(0, i) && tail@
                == bytes@.subrange(i + 1, bytes@.len() as int),
            None => r is None,
        },
{
    let sep: u8 = #[verifier::truncate]
    (at as u8);
    let mut pos: usize = 0;
    while pos < bytes.len()
        invariant
            pos <= bytes.len(),
            sep == separator_byte(at),
            forall|i: int| 0 <= i < pos ==> bytes@[i] != sep,
        decreases bytes.len() - pos,
    {
        if bytes[pos] == sep {
            proof {
                bytes@.index_of_first_ensures(sep);
                assert(bytes@[pos as int] == sep);
            }
            let head = slice_subrange(bytes, 0, pos);
            let tail = slice_subrange(bytes, pos + 1, bytes.len());
            return Some((head, tail));
        }
        pos += 1;
    }
    proof {
        bytes@.index_of_first_ensures(sep);
    }
    None
}

/// `t` is the end of `s`: what is left of `s` when some first bytes are
/// taken away.
pub open spec fn is_suffix(t: Seq<u8>, s: Seq<u8>) -> bool {
    t.len() <= s.len() && t == s.skip(s.len() - t.len())
}

/// Whether two byte strings hold the same bytes.
pub fn bytes_equal(a: &[u8], b: &[u8]) -> (r: bool)
    ensures
        r == (a@ == b@),
{
    if a.len() != b.len() {
        return false;
    }
    let mut i: usize = 0;
    while i < a.len()
        invariant
            i <= a.len(),
            a.len() == b.len(),
            forall|j: int| 0 <= j < i ==> a@[j] == b@[j],
        decreases a.len() - i,
    {
        if a[i] != b[i] {
            return false;
        }
        i += 1;
    }
    assert(a@ =~= b@);
    true
}

/// Lexicographic order on byte strings, bytes compared as unsigned numbers:
/// `a` comes strictly before `b`.
pub open spec fn bytes_lt(a: Seq<u8>, b: Seq<u8>) -> bool
    decreases a.len(),
{
    if b.len() == 0 {
        false
    } else if a.len() == 0 {
        true
    } else if a[0] != b[0] {
        a[0] < b[0]
    } else {
        bytes_lt(a.drop_first(), b.drop_first())
    }
}

/// Two byte strings that agree up to a place where the first has the
/// smaller byte are in order.
pub proof fn lemma_bytes_lt_at_first_difference(a: Seq<u8>, b: Seq<u8>, k: int)
    requires
        0 <= k < a.len(),
        k < b.len(),
        forall|i: int| 0 <= i < k ==> a[i] == b[i],
        a[k] < b[k],
    ensures
        bytes_lt(a, b),
    decreases k,
{
    if k > 0 {
        lemma_bytes_lt_at_first_difference(a.drop_first(), b.drop_first(), k - 1);
    }
}

/// No byte string comes before itself.
pub proof fn lemma_bytes_lt_irreflexive(a: Seq<u8>)
    ensures
        !bytes_lt(a, a),
    decreases a.len(),
{
    if a.len() > 0 {
        lemma_bytes_lt_irreflexive(a.drop_first());
    }
}

/// Of two different byte strings, one comes before the other.
pub proof fn lemma_bytes_lt_connected(a: Seq<u8>, b: Seq<u8>)
    ensures
        bytes_lt(a, b) || a == b || bytes_lt(b, a),
    decreases a.len(),
{
    if a.len() == 0 || b.len() == 0 {
        if a.len() == 0 && b.len() == 0 {
            assert(a =~= b);
        }
    } else if a[0] == b[0] {
        lemma_bytes_lt_connected(a.drop_first(), b.drop_first());
        if a.drop_first() == b.drop_first() {
            assert(a =~= seq![a[0]] + a.drop_first());
            assert(b =~= seq![b[0]] + b.drop_first());
        }
    }
}

/// The order is transitive.
pub proof fn lemma_bytes_lt_transitive(a: Seq<u8>, b: Seq<u8>, c: Seq<u8>)
    requires
        bytes_lt(a, b),
        bytes_lt(b, c),
    ensures
        bytes_lt(a, c),
    decreases a.len(),
{
    if a.len() > 0 && a[0] == b[0] && b[0] == c[0] {
        lemma_bytes_lt_transitive(a.drop_first(), b.drop_first(), c.drop_first());
    }
}

/// The order is asymmetric.
pub proof fn lemma_bytes_lt_asymmetric(a: Seq<u8>, b: Seq<u8>)
    requires
        bytes_lt(a, b),
    ensures
        !bytes_lt(b, a),
{
    if bytes_lt(b, a) {
        lemma_bytes_lt_transitive(a, b, a);
        lemma_bytes_lt_irreflexive(a);
    }
}

/// "Not after" is transitive as well: if `b` is not before `a` and `c` is
/// not before `b`, then `c` is not before `a`.
pub proof fn lemma_bytes_le_transitive(a: Seq<u8>, b: Seq<u8>, c: Seq<u8>)
    requires
        !bytes_lt(b, a),
        !bytes_lt(c, b),
    ensures
        !bytes_lt(c, a),
{
    lemma_bytes_lt_connected(a, b);
    lemma_bytes_lt_connected(b, c);
    if bytes_lt(c, a) {
        if a == b {
        } else if b == c {
        } else {
            lemma_bytes_lt_transitive(c, a, b);
        }
    }
}

/// Decides the lexicographic order of two byte strings.
pub fn bytes_less(a: &[u8], b: &[u8]) -> (r: bool)
    ensures
        r == bytes_lt(a@, b@),
{
    let mut i: usize = 0;
    assert(a@.skip(0) =~= a@ && b@.skip(0) =~= b@);
    while i < a.len() && i < b.len()
        invariant
            i <= a.len(),
            i <= b.len(),
            bytes_lt(a@, b@) == bytes_lt(a@.skip(i as int), b@.skip(i as int)),
        decreases a.len() - i,
    {
        let x = a[i];
        let y = b[i];
        if x != y {
            return x < y;
        }
        proof {
            assert(a@.skip(i as int).drop_first() =~= a@.skip(i + 1));
            assert(b@.skip(i as int).drop_first() =~= b@.skip(i + 1));
        }
        i += 1;
    }
    i < b.len()
}

} // verus!
