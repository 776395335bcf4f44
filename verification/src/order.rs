//! The order of keys: byte strings compared byte by byte, a proper prefix
//! before what it is a prefix of.

use vstd::prelude::*;

verus! {

/// Whether `a` comes before `b` and the two first differ at place `at`: up to
/// there they agree, and there `a` ends or has the smaller byte.
pub open spec fn less_at(a: Seq<u8>, b: Seq<u8>, at: int) -> bool {
    &&& 0 <= at <= a.len()
    &&& at <= b.len()
    &&& forall|k: int| 0 <= k < at ==> a[k] == b[k]
    &&& if at == a.len() {
        at < b.len()
    } else {
        at < b.len() && a[at] < b[at]
    }
}

/// Whether `a` comes before `b` in the order of keys.
pub open spec fn key_less(a: Seq<u8>, b: Seq<u8>) -> bool {
    exists|at: int| less_at(a, b, at)
}

/// How two keys stand to each other.
#[derive(Clone, Copy, Debug, PartialEq, Eq, Structural)]
pub enum KeyOrder {
    /// The first key comes before the second.
    Before,
    /// The keys are the same.
    Same,
    /// The first key comes after the second.
    After,
}

/// Compares two keys.
pub fn compare_keys(a: &[u8], b: &[u8]) -> (order: KeyOrder)
    ensures
        order == KeyOrder::Before <==> key_less(a@, b@),
        order == KeyOrder::Same <==> a@ == b@,
        order == KeyOrder::After <==> key_less(b@, a@),
{
    let mut i: usize = 0;
    while i < a.len() && i < b.len()
        invariant
            i <= a@.len(),
            i <= b@.len(),
            forall|k: int| 0 <= k < i ==> a@[k] == b@[k],
        decreases a@.len() - i,
    {
        if a[i] < b[i] {
            proof {
                assert(less_at(a@, b@, i as int));
                lemma_key_less_asymmetric(a@, b@);
            }
            return KeyOrder::Before;
        }
        if a[i] > b[i] {
            proof {
                assert(less_at(b@, a@, i as int));
                lemma_key_less_asymmetric(b@, a@);
            }
            return KeyOrder::After;
        }
        i += 1;
    }
    if i < b.len() {
        proof {
            assert(less_at(a@, b@, i as int));
            lemma_key_less_asymmetric(a@, b@);
        }
        KeyOrder::Before
    } else if i < a.len() {
        proof {
            assert(less_at(b@, a@, i as int));
            lemma_key_less_asymmetric(b@, a@);
        }
        KeyOrder::After
    } else {
        proof {
            assert(a@ =~= b@);
            lemma_key_less_asymmetric(a@, b@);
        }
        KeyOrder::Same
    }
}

/// No key comes before itself, and of two keys at most one comes before the
/// other.
pub proof fn lemma_key_less_asymmetric(a: Seq<u8>, b: Seq<u8>)
    ensures
        key_less(a, b) ==> !key_less(b, a) && a != b,
        a == b ==> !key_less(a, b),
{
    if key_less(a, b) {
        let i = choose|at: int| less_at(a, b, at);
        if key_less(b, a) {
            let j = choose|at: int| less_at(b, a, at);
            if i < j {
                assert(b[i] == a[i]);
            } else if j < i {
                assert(a[j] == b[j]);
            }
            assert(false);
        }
        if a == b {
            assert(false);
        }
    }
}

/// The order of keys is transitive.
pub proof fn lemma_key_less_transitive(a: Seq<u8>, b: Seq<u8>, c: Seq<u8>)
    requires
        key_less(a, b),
        key_less(b, c),
    ensures
        key_less(a, c),
{
    let i = choose|at: int| less_at(a, b, at);
    let j = choose|at: int| less_at(b, c, at);
    if i <= j {
        assert forall|k: int| 0 <= k < i implies a[k] == c[k] by {
            assert(a[k] == b[k]);
            assert(b[k] == c[k]);
        }
        if i < j {
            assert(b[i] == c[i]);
        }
        assert(less_at(a, c, i));
    } else {
        assert forall|k: int| 0 <= k < j implies a[k] == c[k] by {
            assert(a[k] == b[k]);
            assert(b[k] == c[k]);
        }
        assert(a[j] == b[j]);
        assert(less_at(a, c, j));
    }
}

/// Of two different keys one comes before the other.
pub proof fn lemma_key_less_total(a: Seq<u8>, b: Seq<u8>)
    ensures
        key_less(a, b) || a == b || key_less(b, a),
    decreases a.len(),
{
    lemma_first_difference(a, b, 0);
}

/// Two keys that agree up to `from` are the same, or one comes before the
/// other.
proof fn lemma_first_difference(a: Seq<u8>, b: Seq<u8>, from: int)
    requires
        0 <= from <= a.len(),
        from <= b.len(),
        forall|k: int| 0 <= k < from ==> a[k] == b[k],
    ensures
        key_less(a, b) || a == b || key_less(b, a),
    decreases a.len() - from,
{
    if from == a.len() {
        if from == b.len() {
            assert(a =~= b);
        } else {
            assert(less_at(a, b, from));
        }
    } else if from == b.len() {
        assert(less_at(b, a, from));
    } else if a[from] < b[from] {
        assert(less_at(a, b, from));
    } else if a[from] > b[from] {
        assert(less_at(b, a, from));
    } else {
        lemma_first_difference(a, b, from + 1);
    }
}

} // verus!
