//! The lexicographic order on byte strings.

use vstd::prelude::*;

verus! {

/// Where one value stands relative to another in a total order.
#[derive(Clone, Copy, Debug, PartialEq, Eq, Structural)]
pub enum Rank {
    Before,
    Same,
    After,
}

/// `a` and `b` hold the same bytes at every position below `k`.
pub open spec fn bytes_agree_below(a: Seq<u8>, b: Seq<u8>, k: int) -> bool {
    &&& 0 <= k <= a.len()
    &&& k <= b.len()
    &&& forall|j: int| 0 <= j < k ==> a[j] == b[j]
}

/// Position `k` decides that `a` comes before `b`: they agree below `k`, and
/// there `a` either ends while `b` goes on, or holds the smaller byte.
pub open spec fn bytes_lt_at(a: Seq<u8>, b: Seq<u8>, k: int) -> bool {
    &&& bytes_agree_below(a, b, k)
    &&& k < b.len()
    &&& (k == a.len() || a[k] < b[k])
}

/// `a` comes strictly before `b` in byte-lexicographic order.
pub open spec fn bytes_lt(a: Seq<u8>, b: Seq<u8>) -> bool {
    exists|k: int| bytes_lt_at(a, b, k)
}

/// No byte string comes before itself.
pub proof fn lemma_bytes_lt_irreflexive(a: Seq<u8>)
    ensures
        !bytes_lt(a, a),
{
}

/// Two byte strings are never each before the other.
pub proof fn lemma_bytes_lt_asymmetric(a: Seq<u8>, b: Seq<u8>)
    requires
        bytes_lt(a, b),
    ensures
        !bytes_lt(b, a),
{
    let k = choose|k: int| bytes_lt_at(a, b, k);
    if bytes_lt(b, a) {
        let m = choose|m: int| bytes_lt_at(b, a, m);
        if k < m {
            assert(b[k] == a[k]);
        } else if m < k {
            assert(a[m] == b[m]);
        }
        assert(false);
    }
}

/// The order is transitive.
pub proof fn lemma_bytes_lt_transitive(a: Seq<u8>, b: Seq<u8>, c: Seq<u8>)
    requires
        bytes_lt(a, b),
        bytes_lt(b, c),
    ensures
        bytes_lt(a, c),
{
    let k = choose|k: int| bytes_lt_at(a, b, k);
    let m = choose|m: int| bytes_lt_at(b, c, m);
    let n = if k <= m { k } else { m };
    assert(bytes_agree_below(a, c, n)) by {
        assert forall|j: int| 0 <= j < n implies a[j] == c[j] by {
            assert(a[j] == b[j]);
            assert(b[j] == c[j]);
        }
    }
    if k < m {
        assert(b[k] == c[k]);
    } else if m < k {
        assert(a[m] == b[m]);
    }
    assert(bytes_lt_at(a, c, n));
}

proof fn lemma_bytes_total_from(a: Seq<u8>, b: Seq<u8>, k: int)
    requires
        bytes_agree_below(a, b, k),
    ensures
        bytes_lt(a, b) || a == b || bytes_lt(b, a),
    decreases a.len() - k,
{
    if k == a.len() {
        if k == b.len() {
            assert(a =~= b);
        } else {
            assert(bytes_lt_at(a, b, k));
        }
    } else if k == b.len() {
        assert(bytes_agree_below(b, a, k));
        assert(bytes_lt_at(b, a, k));
    } else if a[k] < b[k] {
        assert(bytes_lt_at(a, b, k));
    } else if b[k] < a[k] {
        assert(bytes_agree_below(b, a, k));
        assert(bytes_lt_at(b, a, k));
    } else {
        lemma_bytes_total_from(a, b, k + 1);
    }
}

/// Any two byte strings are equal or one comes before the other.
pub proof fn lemma_bytes_lt_total(a: Seq<u8>, b: Seq<u8>)
    ensures
        bytes_lt(a, b) || a == b || bytes_lt(b, a),
{
    lemma_bytes_total_from(a, b, 0);
}

/// Ranks `a` against `b` in byte-lexicographic order.
pub fn rank_bytes(a: &[u8], b: &[u8]) -> (rank: Rank)
    ensures
        rank == Rank::Before <==> bytes_lt(a@, b@),
        rank == Rank::Same <==> a@ == b@,
        rank == Rank::After <==> bytes_lt(b@, a@),
{
    let mut i: usize = 0;
    let mut rank = Rank::Same;
    while i < a.len() && i < b.len()
        invariant_except_break
            bytes_agree_below(a@, b@, i as int),
            rank == Rank::Same,
        ensures
            rank == Rank::Same ==> bytes_agree_below(a@, b@, i as int) && (i == a.len() || i
                == b.len()),
            rank == Rank::Before ==> bytes_lt_at(a@, b@, i as int),
            rank == Rank::After ==> bytes_lt_at(b@, a@, i as int),
        decreases a.len() - i,
    {
        if a[i] < b[i] {
            rank = Rank::Before;
            break ;
        }
        if a[i] > b[i] {
            rank = Rank::After;
            assert(bytes_agree_below(b@, a@, i as int));
            break ;
        }
        i += 1;
    }
    if rank == Rank::Same {
        if a.len() < b.len() {
            rank = Rank::Before;
            assert(bytes_lt_at(a@, b@, i as int));
        } else if b.len() < a.len() {
            rank = Rank::After;
            assert(bytes_agree_below(b@, a@, i as int));
            assert(bytes_lt_at(b@, a@, i as int));
        } else {
            assert(a@ =~= b@);
        }
    }
    proof {
        lemma_bytes_lt_irreflexive(a@);
        if bytes_lt(a@, b@) {
            lemma_bytes_lt_asymmetric(a@, b@);
        }
        if bytes_lt(b@, a@) {
            lemma_bytes_lt_asymmetric(b@, a@);
        }
    }
    rank
}

} // verus!
