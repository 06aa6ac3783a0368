//! Paths: finite sequences of 32-bit digits, ordered lexicographically with a
//! shorter path before every path that extends it.

use vstd::prelude::*;

verus! {

/// The most digits a path may hold.
pub const MAX_LEVELS: usize = 65535;

/// The exclusive upper bound of the digits at level 0, and the single digit of
/// the closing sentinel's path.
pub const LEVEL0_END: u32 = 0xFFFF_FFFE;

/// `a` and `b` hold the same digits at every level below `k`.
pub open spec fn agree_below(a: Seq<u32>, b: Seq<u32>, k: int) -> bool {
    forall|i: int| 0 <= i < k ==> a[i] == b[i]
}

/// `a` comes before `b` because of level `k`: both agree below `k`, and at
/// `k` either `a` has ended while `b` goes on, or `a` holds the smaller digit.
pub open spec fn precedes_at(a: Seq<u32>, b: Seq<u32>, k: int) -> bool {
    &&& 0 <= k <= a.len()
    &&& k < b.len()
    &&& agree_below(a, b, k)
    &&& k < a.len() ==> a[k] < b[k]
}

/// The strict lexicographic order on paths.
#[verifier::opaque]
pub open spec fn path_lt(a: Seq<u32>, b: Seq<u32>) -> bool {
    exists|k: int| precedes_at(a, b, k)
}

/// How one value stands to another in a total order.
#[derive(Clone, Copy, Debug, PartialEq, Eq, Structural)]
pub enum Rank {
    Before,
    Same,
    After,
}

/// No path comes before itself.
pub proof fn lemma_path_lt_irreflexive(a: Seq<u32>)
    ensures
        !path_lt(a, a),
{
    reveal(path_lt);
}

/// Of two paths at most one comes before the other.
pub proof fn lemma_path_lt_asymmetric(a: Seq<u32>, b: Seq<u32>)
    requires
        path_lt(a, b),
    ensures
        !path_lt(b, a),
        a != b,
{
    reveal(path_lt);
    let k = choose|k: int| precedes_at(a, b, k);
    if path_lt(b, a) {
        let j = choose|j: int| precedes_at(b, a, j);
        if j < k {
            assert(a[j] == b[j]);
        } else if k < j {
            assert(b[k] == a[k]);
        }
    }
}

/// The order on paths is transitive.
pub proof fn lemma_path_lt_transitive(a: Seq<u32>, b: Seq<u32>, c: Seq<u32>)
    requires
        path_lt(a, b),
        path_lt(b, c),
    ensures
        path_lt(a, c),
{
    reveal(path_lt);
    let k = choose|k: int| precedes_at(a, b, k);
    let j = choose|j: int| precedes_at(b, c, j);
    let m = if k <= j { k } else { j };
    assert forall|i: int| 0 <= i < m implies a[i] == c[i] by {
        assert(a[i] == b[i]);
        assert(b[i] == c[i]);
    }
    if k < j {
        assert(b[k] == c[k]);
    } else if j < k {
        assert(a[j] == b[j]);
    }
    assert(precedes_at(a, c, m));
}

/// Any two paths are equal or one comes before the other.
pub proof fn lemma_path_trichotomy(a: Seq<u32>, b: Seq<u32>)
    ensures
        path_lt(a, b) || a == b || path_lt(b, a),
    decreases a.len(),
{
    reveal(path_lt);
    if a.len() == 0 {
        if b.len() > 0 {
            assert(precedes_at(a, b, 0));
        } else {
            assert(a =~= b);
        }
    } else if b.len() == 0 {
        assert(precedes_at(b, a, 0));
    } else if a[0] < b[0] {
        assert(precedes_at(a, b, 0));
    } else if b[0] < a[0] {
        assert(precedes_at(b, a, 0));
    } else {
        let x = a.drop_first();
        let y = b.drop_first();
        lemma_path_trichotomy(x, y);
        if path_lt(x, y) {
            let k = choose|k: int| precedes_at(x, y, k);
            assert forall|i: int| 0 <= i < k + 1 implies a[i] == b[i] by {
                if i > 0 {
                    assert(x[i - 1] == y[i - 1]);
                }
            }
            assert(precedes_at(a, b, k + 1));
        } else if path_lt(y, x) {
            let k = choose|k: int| precedes_at(y, x, k);
            assert forall|i: int| 0 <= i < k + 1 implies b[i] == a[i] by {
                if i > 0 {
                    assert(y[i - 1] == x[i - 1]);
                }
            }
            assert(precedes_at(b, a, k + 1));
        } else {
            assert(a =~= seq![a[0]] + x);
            assert(b =~= seq![b[0]] + y);
        }
    }
}

/// A level at which `a` comes before `b` shows that it does.
pub proof fn lemma_precedes(a: Seq<u32>, b: Seq<u32>, k: int)
    requires
        precedes_at(a, b, k),
    ensures
        path_lt(a, b),
{
    reveal(path_lt);
}

/// Where `a` comes before `b` there is a level at which it does.
pub proof fn lemma_path_lt_level(a: Seq<u32>, b: Seq<u32>) -> (k: int)
    requires
        path_lt(a, b),
    ensures
        precedes_at(a, b, k),
{
    reveal(path_lt);
    choose|k: int| precedes_at(a, b, k)
}

/// Compares two paths in the lexicographic order.
pub fn compare(a: &[u32], b: &[u32]) -> (r: Rank)
    ensures
        r == Rank::Before <==> path_lt(a@, b@),
        r == Rank::Same <==> a@ == b@,
        r == Rank::After <==> path_lt(b@, a@),
{
    let mut i: usize = 0;
    while i < a.len() && i < b.len()
        invariant
            i <= a.len(),
            i <= b.len(),
            agree_below(a@, b@, i as int),
        decreases a.len() - i,
    {
        if a[i] < b[i] {
            proof {
                lemma_precedes(a@, b@, i as int);
                lemma_path_lt_asymmetric(a@, b@);
            }
            return Rank::Before;
        }
        if a[i] > b[i] {
            proof {
                lemma_precedes(b@, a@, i as int);
                lemma_path_lt_asymmetric(b@, a@);
            }
            return Rank::After;
        }
        i += 1;
    }
    if i < b.len() {
        proof {
            lemma_precedes(a@, b@, i as int);
            lemma_path_lt_asymmetric(a@, b@);
        }
        Rank::Before
    } else if i < a.len() {
        proof {
            lemma_precedes(b@, a@, i as int);
            lemma_path_lt_asymmetric(b@, a@);
        }
        Rank::After
    } else {
        proof {
            assert(a@ =~= b@);
            lemma_path_lt_irreflexive(a@);
        }
        Rank::Same
    }
}

} // verus!
