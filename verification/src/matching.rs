//! Connections and the partial assignments that the search builds them from.

use vstd::prelude::*;

verus! {

/// A connection pairs every port with exactly one other port: `c[i] == j`
/// exactly when port `i` is joined to port `j`.
pub open spec fn is_matching(c: Seq<u32>) -> bool {
    forall|i: int|
        0 <= i < c.len() ==> {
            &&& (#[trigger] c[i]) < c.len()
            &&& c[i] != i
            &&& c[c[i] as int] == i
        }
}

/// A partial assignment leaves some ports open; every port that has a partner
/// is its partner's partner, and no port is joined to itself.
pub open spec fn is_partial(arr: Seq<Option<u32>>) -> bool {
    forall|i: int|
        0 <= i < arr.len() && (#[trigger] arr[i]) is Some ==> {
            &&& arr[i]->0 < arr.len()
            &&& arr[i]->0 != i
            &&& arr[arr[i]->0 as int] is Some
            &&& arr[arr[i]->0 as int]->0 == i
        }
}

/// Every port below `index` has a partner.
pub open spec fn decided_below(arr: Seq<Option<u32>>, index: int) -> bool {
    forall|i: int| 0 <= i < index && i < arr.len() ==> (#[trigger] arr[i]) is Some
}

/// The connection that a fully decided assignment stands for.
pub open spec fn filled(arr: Seq<Option<u32>>) -> Seq<u32> {
    Seq::new(arr.len(), |i: int| arr[i]->0)
}

/// The assignment with ports `a` and `b` joined to each other.
pub open spec fn pair(arr: Seq<Option<u32>>, a: int, b: int) -> Seq<Option<u32>> {
    arr.update(a, Some(b as u32)).update(b, Some(a as u32))
}

/// A fully decided partial assignment is a connection.
pub proof fn lemma_filled_is_matching(arr: Seq<Option<u32>>)
    requires
        is_partial(arr),
        decided_below(arr, arr.len() as int),
    ensures
        is_matching(filled(arr)),
        filled(arr).len() == arr.len(),
{
    let c = filled(arr);
    assert forall|i: int| 0 <= i < c.len() implies {
        &&& (#[trigger] c[i]) < c.len()
        &&& c[i] != i
        &&& c[c[i] as int] == i
    } by {
        assert(arr[i] is Some);
        let j = arr[i]->0 as int;
        assert(arr[j] is Some);
    }
}

/// Joining two open ports of a partial assignment gives a partial assignment.
pub proof fn lemma_pair_is_partial(arr: Seq<Option<u32>>, a: int, b: int)
    requires
        is_partial(arr),
        arr.len() <= u32::MAX,
        0 <= a < arr.len(),
        0 <= b < arr.len(),
        a != b,
        arr[a] is None,
        arr[b] is None,
    ensures
        is_partial(pair(arr, a, b)),
        pair(arr, a, b).len() == arr.len(),
{
    let next = pair(arr, a, b);
    assert forall|i: int| 0 <= i < next.len() && (#[trigger] next[i]) is Some implies {
        &&& next[i]->0 < next.len()
        &&& next[i]->0 != i
        &&& next[next[i]->0 as int] is Some
        &&& next[next[i]->0 as int]->0 == i
    } by {
        if i != a && i != b {
            assert(arr[i] is Some);
            let j = arr[i]->0 as int;
            assert(arr[j] is Some);
        }
    }
}

} // verus!
