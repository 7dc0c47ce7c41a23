//! The order of byte strings by which the store sorts its keys.

use vstd::prelude::*;

verus! {

/// `a` and `b` agree on their first `k` bytes and part ways there: `a` ends
/// while `b` goes on, or `a` has the smaller byte.
pub open spec fn parts_below(a: Seq<u8>, b: Seq<u8>, k: int) -> bool {
    &&& 0 <= k <= a.len()
    &&& k < b.len()
    &&& forall|j: int| 0 <= j < k ==> a[j] == b[j]
    &&& k < a.len() ==> a[k] < b[k]
}

/// `a` sorts before `b` in the lexicographic order of unsigned bytes.
pub open spec fn lex_lt(a: Seq<u8>, b: Seq<u8>) -> bool {
    exists|k: int| #[trigger] parts_below(a, b, k)
}

/// `a` is `b` or sorts before it.
pub open spec fn lex_le(a: Seq<u8>, b: Seq<u8>) -> bool {
    a == b || lex_lt(a, b)
}

/// `key` lies between `low` and `high`, both included.
pub open spec fn within(key: Seq<u8>, low: Seq<u8>, high: Seq<u8>) -> bool {
    lex_le(low, key) && lex_le(key, high)
}

/// No byte string sorts before itself, and of two at most one sorts before
/// the other.
pub proof fn lemma_lex_lt_asymmetric(a: Seq<u8>, b: Seq<u8>)
    requires
        lex_lt(a, b),
    ensures
        !lex_lt(b, a),
        a != b,
{
    let k = choose|k: int| #[trigger] parts_below(a, b, k);
    if lex_lt(b, a) {
        let m = choose|m: int| #[trigger] parts_below(b, a, m);
        if k < m {
            assert(a[k] == b[k]);
        } else if m < k {
            assert(a[m] == b[m]);
        }
    }
}

} // verus!
