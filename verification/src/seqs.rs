//! Facts about membership in sequences that are built by appending.

use vstd::prelude::*;

verus! {

/// What is in either part is in the whole.
pub proof fn lemma_contains_add<T>(a: Seq<T>, b: Seq<T>, x: T)
    requires
        a.contains(x) || b.contains(x),
    ensures
        (a + b).contains(x),
{
    if a.contains(x) {
        let k = choose|k: int| 0 <= k < a.len() && a[k] == x;
        assert((a + b)[k] == x);
    } else {
        let k = choose|k: int| 0 <= k < b.len() && b[k] == x;
        assert((a + b)[a.len() + k] == x);
    }
}

/// What was in the sequence is in it after a push, and so is what is pushed.
pub proof fn lemma_contains_push<T>(a: Seq<T>, v: T, x: T)
    requires
        a.contains(x) || x == v,
    ensures
        a.push(v).contains(x),
{
    if a.contains(x) {
        let k = choose|k: int| 0 <= k < a.len() && a[k] == x;
        assert(a.push(v)[k] == x);
    } else {
        assert(a.push(v)[a.len() as int] == x);
    }
}

} // verus!
