//! Lexicographic order on file paths, by character.
use vstd::prelude::*;

verus! {

/// `a` and `b` agree on their first `k` characters.
pub open spec fn agree_upto(a: Seq<char>, b: Seq<char>, k: int) -> bool {
    forall|i: int| 0 <= i < k ==> a[i] == b[i]
}

/// `a` sorts strictly before `b`: at the first position where they differ,
/// `a` has the smaller character, or `a` is a proper prefix of `b`.
pub open spec fn path_less(a: Seq<char>, b: Seq<char>) -> bool {
    exists|k: int|
        0 <= k <= a.len() && k <= b.len() && #[trigger] agree_upto(a, b, k) && (
        (k < a.len() && k < b.len() && (a[k] as u32) < (b[k] as u32)) || (k == a.len() && k < b.len()))
}

pub proof fn lemma_less_irreflexive(a: Seq<char>)
    ensures
        !path_less(a, a),
{
}

pub proof fn lemma_less_asymmetric(a: Seq<char>, b: Seq<char>)
    requires
        path_less(a, b),
    ensures
        !path_less(b, a),
        a != b,
{
    let k1 = choose|k: int|
        0 <= k <= a.len() && k <= b.len() && #[trigger] agree_upto(a, b, k) && (
        (k < a.len() && k < b.len() && (a[k] as u32) < (b[k] as u32)) || (k == a.len() && k < b.len()));
    if path_less(b, a) {
        let k2 = choose|k: int|
            0 <= k <= b.len() && k <= a.len() && #[trigger] agree_upto(b, a, k) && (
            (k < b.len() && k < a.len() && (b[k] as u32) < (a[k] as u32)) || (k == b.len() && k < a.len()));
        if k1 < k2 {
            assert(b[k1] == a[k1]);
        } else if k2 < k1 {
            assert(a[k2] == b[k2]);
        }
    }
}

pub proof fn lemma_less_transitive(a: Seq<char>, b: Seq<char>, c: Seq<char>)
    requires
        path_less(a, b),
        path_less(b, c),
    ensures
        path_less(a, c),
{
    let k1 = choose|k: int|
        0 <= k <= a.len() && k <= b.len() && #[trigger] agree_upto(a, b, k) && (
        (k < a.len() && k < b.len() && (a[k] as u32) < (b[k] as u32)) || (k == a.len() && k < b.len()));
    let k2 = choose|k: int|
        0 <= k <= b.len() && k <= c.len() && #[trigger] agree_upto(b, c, k) && (
        (k < b.len() && k < c.len() && (b[k] as u32) < (c[k] as u32)) || (k == b.len() && k < c.len()));
    let k = if k1 < k2 { k1 } else { k2 };
    assert(agree_upto(a, c, k)) by {
        assert forall|i: int| 0 <= i < k implies a[i] == c[i] by {
            assert(a[i] == b[i]);
            assert(b[i] == c[i]);
        }
    }
    if k1 == k2 {
    } else if k1 < k2 {
        assert(b[k1] == c[k1]);
    } else {
        assert(a[k2] == b[k2]);
    }
}

/// Whether `a` and `b` are equal, and if not which sorts first.
pub enum PathOrder {
    Less,
    Equal,
    Greater,
}

/// Compares two paths character by character.
pub fn compare_paths(a: &str, b: &str) -> (r: PathOrder)
    ensures
        r is Less <==> path_less(a@, b@),
        r is Equal <==> a@ == b@,
        r is Greater <==> path_less(b@, a@),
{
    let la = a.unicode_len();
    let lb = b.unicode_len();
    let mut i: usize = 0;
    while i < la && i < lb
        invariant
            la == a@.len(),
            lb == b@.len(),
            i <= la,
            i <= lb,
            agree_upto(a@, b@, i as int),
        decreases la - i,
    {
        let ca = a.get_char(i);
        let cb = b.get_char(i);
        if (ca as u32) < (cb as u32) {
            assert(agree_upto(a@, b@, i as int));
            proof { lemma_less_asymmetric(a@, b@); }
            return PathOrder::Less;
        }
        if (cb as u32) < (ca as u32) {
            assert(agree_upto(b@, a@, i as int));
            proof { lemma_less_asymmetric(b@, a@); }
            return PathOrder::Greater;
        }
        assert((ca as u32) == (cb as u32));
        i += 1;
    }
    if la < lb {
        assert(agree_upto(a@, b@, i as int));
        proof { lemma_less_asymmetric(a@, b@); }
        PathOrder::Less
    } else if lb < la {
        assert(agree_upto(b@, a@, i as int));
        proof { lemma_less_asymmetric(b@, a@); }
        PathOrder::Greater
    } else {
        assert(a@ =~= b@);
        proof { lemma_less_irreflexive(a@); }
        PathOrder::Equal
    }
}

} // verus!
