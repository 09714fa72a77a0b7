//! What the search meets: exactly the connections that extend the
//! assignment it starts from, each once.

use vstd::prelude::*;
use crate::enumerate::{branches, completions};
use crate::matching::{
    decided_below, filled, is_matching, is_partial, lemma_filled_is_matching,
    lemma_pair_is_partial, pair,
};

verus! {

/// `m` is a connection that keeps every pair that `arr` has decided.
pub open spec fn extends(arr: Seq<Option<u32>>, m: Seq<u32>) -> bool {
    &&& m.len() == arr.len()
    &&& is_matching(m)
    &&& forall|i: int| 0 <= i < arr.len() && (#[trigger] arr[i]) is Some ==> m[i] == arr[i]->0
}

/// A state of the search: a partial assignment whose ports below `index`
/// all have partners.
pub open spec fn is_search_state(arr: Seq<Option<u32>>, index: int) -> bool {
    &&& arr.len() <= u32::MAX
    &&& 0 <= index <= arr.len()
    &&& is_partial(arr)
    &&& decided_below(arr, index)
}

/// A connection that extends `arr` with two more ports joined extends `arr`.
proof fn lemma_extends_pair(arr: Seq<Option<u32>>, a: int, b: int, m: Seq<u32>)
    requires
        arr.len() <= u32::MAX,
        0 <= a < arr.len(),
        0 <= b < arr.len(),
        a != b,
        arr[a] is None,
        arr[b] is None,
        extends(pair(arr, a, b), m),
    ensures
        extends(arr, m),
        m[a] == b,
        m[b] == a,
{
    let next = pair(arr, a, b);
    assert(next[a] is Some);
    assert(next[b] is Some);
    assert forall|i: int| 0 <= i < arr.len() && (#[trigger] arr[i]) is Some implies m[i]
        == arr[i]->0 by {
        assert(next[i] == arr[i]);
    }
}

/// Every connection that the search meets from a state extends that state's
/// assignment.
pub proof fn lemma_completions_sound(arr: Seq<Option<u32>>, index: int)
    requires
        is_search_state(arr, index),
    ensures
        forall|t: int|
            0 <= t < completions(arr, index).len() ==> extends(
                arr,
                #[trigger] completions(arr, index)[t],
            ),
    decreases arr.len() - index, arr.len() + 1,
{
    if index == arr.len() {
        lemma_filled_is_matching(arr);
        assert(extends(arr, filled(arr)));
        assert(completions(arr, index) =~= seq![filled(arr)]);
    } else if arr[index] is Some {
        lemma_completions_sound(arr, index + 1);
        assert(completions(arr, index) == completions(arr, index + 1));
    } else {
        lemma_branches_sound(arr, index, arr.len() as int);
        assert(completions(arr, index) == branches(arr, index, arr.len() as int));
    }
}

/// Every connection that the search meets while it joins port `index` to a
/// port below `to` extends the assignment, and joins `index` to such a port.
pub proof fn lemma_branches_sound(arr: Seq<Option<u32>>, index: int, to: int)
    requires
        is_search_state(arr, index),
        index < to <= arr.len(),
        arr[index] is None,
    ensures
        forall|t: int|
            0 <= t < branches(arr, index, to).len() ==> {
                let m = #[trigger] branches(arr, index, to)[t];
                extends(arr, m) && index < m[index] < to
            },
    decreases arr.len() - index, to,
{
    if to > index + 1 {
        lemma_branches_sound(arr, index, to - 1);
        if arr[to - 1] is None {
            let earlier = branches(arr, index, to - 1);
            let next = pair(arr, index, to - 1);
            lemma_pair_is_partial(arr, index, to - 1);
            lemma_completions_sound(next, index + 1);
            assert forall|t: int| 0 <= t < branches(arr, index, to).len() implies {
                let m = #[trigger] branches(arr, index, to)[t];
                extends(arr, m) && index < m[index] < to
            } by {
                if t >= earlier.len() {
                    let m = completions(next, index + 1)[t - earlier.len()];
                    assert(branches(arr, index, to)[t] == m);
                    lemma_extends_pair(arr, index, to - 1, m);
                } else {
                    assert(branches(arr, index, to)[t] == earlier[t]);
                }
            }
        } else {
            assert(branches(arr, index, to) == branches(arr, index, to - 1));
        }
    } else {
        assert(branches(arr, index, to) =~= Seq::<Seq<u32>>::empty());
    }
}

/// The connections met while port `index` is joined to `partner` are among
/// those met while it is joined to any port below `to`.
proof fn lemma_branch_is_within(
    arr: Seq<Option<u32>>,
    index: int,
    to: int,
    partner: int,
    m: Seq<u32>,
)
    requires
        0 <= index < partner < to <= arr.len(),
        arr[partner] is None,
        completions(pair(arr, index, partner), index + 1).contains(m),
    ensures
        branches(arr, index, to).contains(m),
    decreases to,
{
    let earlier = branches(arr, index, to - 1);
    if partner == to - 1 {
        let here = completions(pair(arr, index, partner), index + 1);
        let t = choose|t: int| 0 <= t < here.len() && here[t] == m;
        assert(branches(arr, index, to)[earlier.len() + t] == m);
    } else {
        lemma_branch_is_within(arr, index, to - 1, partner, m);
        let t = choose|t: int| 0 <= t < earlier.len() && earlier[t] == m;
        assert(branches(arr, index, to)[t] == m);
    }
}

/// The search meets every connection that extends the assignment of the
/// state it starts from.
pub proof fn lemma_completions_complete(arr: Seq<Option<u32>>, index: int, m: Seq<u32>)
    requires
        is_search_state(arr, index),
        extends(arr, m),
    ensures
        completions(arr, index).contains(m),
    decreases arr.len() - index,
{
    if index == arr.len() {
        assert(filled(arr) =~= m);
        assert(completions(arr, index)[0] == m);
    } else if arr[index] is Some {
        lemma_completions_complete(arr, index + 1, m);
    } else {
        let partner = m[index] as int;
        assert(m[partner] == index);
        if partner < index || arr[partner] is Some {
            assert(arr[partner] is Some);
            assert(arr[partner]->0 == index);
            assert(arr[index] is Some);
        }
        let next = pair(arr, index, partner);
        lemma_pair_is_partial(arr, index, partner);
        assert(extends(next, m));
        lemma_completions_complete(next, index + 1, m);
        lemma_branch_is_within(arr, index, arr.len() as int, partner, m);
    }
}

/// The search meets no connection twice.
pub proof fn lemma_completions_distinct(arr: Seq<Option<u32>>, index: int)
    requires
        is_search_state(arr, index),
    ensures
        completions(arr, index).no_duplicates(),
    decreases arr.len() - index, arr.len() + 1,
{
    if index == arr.len() {
    } else if arr[index] is Some {
        lemma_completions_distinct(arr, index + 1);
    } else {
        lemma_branches_distinct(arr, index, arr.len() as int);
    }
}

/// The search meets no connection twice while it joins port `index` to the
/// ports below `to`.
pub proof fn lemma_branches_distinct(arr: Seq<Option<u32>>, index: int, to: int)
    requires
        is_search_state(arr, index),
        index < to <= arr.len(),
        arr[index] is None,
    ensures
        branches(arr, index, to).no_duplicates(),
    decreases arr.len() - index, to,
{
    if to > index + 1 {
        lemma_branches_distinct(arr, index, to - 1);
        if arr[to - 1] is None {
            let all = branches(arr, index, to);
            let earlier = branches(arr, index, to - 1);
            let next = pair(arr, index, to - 1);
            let here = completions(next, index + 1);
            lemma_pair_is_partial(arr, index, to - 1);
            lemma_completions_distinct(next, index + 1);
            lemma_completions_sound(next, index + 1);
            lemma_branches_sound(arr, index, to - 1);
            assert forall|s: int, t: int| 0 <= s < all.len() && 0 <= t < all.len() && s != t implies all[s]
                != all[t] by {
                if s < earlier.len() && t < earlier.len() {
                    assert(all[s] == earlier[s] && all[t] == earlier[t]);
                } else if s >= earlier.len() && t >= earlier.len() {
                    assert(all[s] == here[s - earlier.len()]);
                    assert(all[t] == here[t - earlier.len()]);
                } else {
                    let (low, high) = if s < t {
                        (s, t)
                    } else {
                        (t, s)
                    };
                    assert(all[low] == earlier[low]);
                    assert(all[high] == here[high - earlier.len()]);
                    lemma_extends_pair(arr, index, to - 1, here[high - earlier.len()]);
                    assert(earlier[low][index] < to - 1);
                }
            }
        }
    }
}

/// The number of ports from `from` up to `to` that have no partner yet.
pub open spec fn open_ports(arr: Seq<Option<u32>>, from: int, to: int) -> int
    decreases to - from,
{
    if from < 0 || to <= from || to > arr.len() {
        0
    } else {
        open_ports(arr, from, to - 1) + if arr[to - 1] is None {
            1int
        } else {
            0int
        }
    }
}

/// The product `k * (k - 2) * (k - 4) * ...` of the positive numbers of
/// `k`'s parity up to `k`; it is 1 where there are none.
pub open spec fn double_factorial(k: int) -> int
    decreases k,
{
    if k <= 1 {
        1
    } else {
        k * double_factorial(k - 2)
    }
}

/// The open ports of a range are its first port, if open, and those of the
/// rest.
proof fn lemma_open_ports_from_left(arr: Seq<Option<u32>>, from: int, to: int)
    requires
        0 <= from < to <= arr.len(),
    ensures
        open_ports(arr, from, to) == open_ports(arr, from + 1, to) + if arr[from] is None {
            1int
        } else {
            0int
        },
    decreases to - from,
{
    if to > from + 1 {
        lemma_open_ports_from_left(arr, from, to - 1);
    } else {
        assert(open_ports(arr, from, to - 1) == 0);
        assert(open_ports(arr, from + 1, to) == 0);
    }
}

/// Giving port `k` a partner takes it out of the open ports.
proof fn lemma_open_ports_update(arr: Seq<Option<u32>>, k: int, partner: u32, from: int, to: int)
    requires
        0 <= from <= to <= arr.len(),
        0 <= k < arr.len(),
    ensures
        open_ports(arr.update(k, Some(partner)), from, to) == open_ports(arr, from, to) - if from
            <= k < to && arr[k] is None {
            1int
        } else {
            0int
        },
    decreases to - from,
{
    if to > from {
        lemma_open_ports_update(arr, k, partner, from, to - 1);
    }
}

/// Joining port `index` to a later open port leaves two open ports fewer.
proof fn lemma_open_ports_pair(arr: Seq<Option<u32>>, index: int, partner: int)
    requires
        0 <= index < partner < arr.len(),
        arr[index] is None,
        arr[partner] is None,
    ensures
        open_ports(pair(arr, index, partner), index + 1, arr.len() as int) == open_ports(
            arr,
            index,
            arr.len() as int,
        ) - 2,
{
    let n = arr.len() as int;
    let first = arr.update(index, Some(partner as u32));
    lemma_open_ports_from_left(arr, index, n);
    lemma_open_ports_update(arr, index, partner as u32, index + 1, n);
    lemma_open_ports_update(first, partner, index as u32, index + 1, n);
}

/// From a state with an even number of open ports the search meets as many
/// connections as there are ways to pair those ports up.
pub proof fn lemma_completions_count(arr: Seq<Option<u32>>, index: int)
    requires
        is_search_state(arr, index),
        open_ports(arr, index, arr.len() as int) % 2 == 0,
    ensures
        completions(arr, index).len() == double_factorial(
            open_ports(arr, index, arr.len() as int) - 1,
        ),
    decreases arr.len() - index, arr.len() + 1,
{
    let n = arr.len() as int;
    if index == n {
        assert(completions(arr, index) =~= seq![filled(arr)]);
    } else if arr[index] is Some {
        lemma_open_ports_from_left(arr, index, n);
        lemma_completions_count(arr, index + 1);
    } else {
        lemma_open_ports_from_left(arr, index, n);
        lemma_branches_count(arr, index, n);
        let open = open_ports(arr, index, n);
        assert(open >= 2);
        assert(double_factorial(open - 1) == (open - 1) * double_factorial(open - 3)) by {
            if open == 2 {
                assert(double_factorial(-1) == 1);
                assert(double_factorial(1) == 1);
            }
        }
    }
}

/// While port `index` is joined to the open ports below `to`, each of them
/// brings as many connections as there are ways to pair up the others.
pub proof fn lemma_branches_count(arr: Seq<Option<u32>>, index: int, to: int)
    requires
        is_search_state(arr, index),
        index < to <= arr.len(),
        arr[index] is None,
        open_ports(arr, index, arr.len() as int) % 2 == 0,
    ensures
        branches(arr, index, to).len() == open_ports(arr, index + 1, to) * double_factorial(
            open_ports(arr, index, arr.len() as int) - 3,
        ),
    decreases arr.len() - index, to,
{
    let each = double_factorial(open_ports(arr, index, arr.len() as int) - 3);
    if to > index + 1 {
        lemma_branches_count(arr, index, to - 1);
        let before = open_ports(arr, index + 1, to - 1);
        if arr[to - 1] is None {
            let next = pair(arr, index, to - 1);
            lemma_pair_is_partial(arr, index, to - 1);
            lemma_open_ports_pair(arr, index, to - 1);
            lemma_completions_count(next, index + 1);
            assert(completions(next, index + 1).len() == each);
            assert(before * each + each == (before + 1) * each) by (nonlinear_arith);
        } else {
            assert(branches(arr, index, to) == branches(arr, index, to - 1));
        }
    } else {
        assert(branches(arr, index, to) =~= Seq::<Seq<u32>>::empty());
        assert(0 * each == 0);
    }
}

/// `a` and `b` first differ at port `p`, where `a` has the lower partner.
pub open spec fn lower_at(a: Seq<u32>, b: Seq<u32>, p: int) -> bool {
    &&& 0 <= p < a.len()
    &&& p < b.len()
    &&& a[p] < b[p]
    &&& forall|q: int| 0 <= q < p ==> a[q] == b[q]
}

/// `a` comes before `b` in dictionary order.
pub open spec fn precedes(a: Seq<u32>, b: Seq<u32>) -> bool {
    exists|p: int| lower_at(a, b, p)
}

/// `found` is in strictly increasing dictionary order.
pub open spec fn increasing(found: Seq<Seq<u32>>) -> bool {
    forall|s: int, t: int|
        0 <= s < t < found.len() ==> precedes(#[trigger] found[s], #[trigger] found[t])
}

/// The search meets the connections in strictly increasing dictionary order.
pub proof fn lemma_completions_increasing(arr: Seq<Option<u32>>, index: int)
    requires
        is_search_state(arr, index),
    ensures
        increasing(completions(arr, index)),
    decreases arr.len() - index, arr.len() + 1,
{
    if index == arr.len() {
    } else if arr[index] is Some {
        lemma_completions_increasing(arr, index + 1);
    } else {
        lemma_branches_increasing(arr, index, arr.len() as int);
    }
}

/// While it joins port `index` to the ports below `to`, the search meets the
/// connections in strictly increasing dictionary order.
pub proof fn lemma_branches_increasing(arr: Seq<Option<u32>>, index: int, to: int)
    requires
        is_search_state(arr, index),
        index < to <= arr.len(),
        arr[index] is None,
    ensures
        increasing(branches(arr, index, to)),
    decreases arr.len() - index, to,
{
    if to > index + 1 {
        lemma_branches_increasing(arr, index, to - 1);
        if arr[to - 1] is None {
            let all = branches(arr, index, to);
            let earlier = branches(arr, index, to - 1);
            let next = pair(arr, index, to - 1);
            let here = completions(next, index + 1);
            lemma_pair_is_partial(arr, index, to - 1);
            lemma_completions_increasing(next, index + 1);
            lemma_completions_sound(next, index + 1);
            lemma_branches_sound(arr, index, to - 1);
            assert forall|s: int, t: int| 0 <= s < t < all.len() implies precedes(
                #[trigger] all[s],
                #[trigger] all[t],
            ) by {
                if t < earlier.len() {
                    assert(all[s] == earlier[s] && all[t] == earlier[t]);
                } else if s >= earlier.len() {
                    assert(all[s] == here[s - earlier.len()]);
                    assert(all[t] == here[t - earlier.len()]);
                } else {
                    let a = earlier[s];
                    let b = here[t - earlier.len()];
                    assert(all[s] == a);
                    assert(all[t] == b);
                    lemma_extends_pair(arr, index, to - 1, b);
                    assert forall|q: int| 0 <= q < index implies a[q] == b[q] by {
                        assert(arr[q] is Some);
                    }
                    assert(lower_at(a, b, index));
                }
            }
        }
    }
}

/// Dictionary order is transitive.
pub proof fn lemma_precedes_is_transitive(a: Seq<u32>, b: Seq<u32>, c: Seq<u32>)
    requires
        precedes(a, b),
        precedes(b, c),
    ensures
        precedes(a, c),
{
    let p = choose|p: int| lower_at(a, b, p);
    let q = choose|q: int| lower_at(b, c, q);
    if p <= q {
        assert(lower_at(a, c, p));
    } else {
        assert(lower_at(a, c, q));
    }
}

/// Two listings in strictly increasing dictionary order that list the same
/// connections are the same listing.
pub proof fn lemma_increasing_is_unique(a: Seq<Seq<u32>>, b: Seq<Seq<u32>>)
    requires
        increasing(a),
        increasing(b),
        forall|m: Seq<u32>| a.contains(m) <==> b.contains(m),
    ensures
        a == b,
    decreases a.len(),
{
    if a.len() == 0 {
        if b.len() > 0 {
            assert(b.contains(b[0]));
        }
        assert(a =~= b);
    } else {
        let top = a.last();
        assert(a.contains(a[a.len() - 1]));
        let j = choose|j: int| 0 <= j < b.len() && b[j] == top;
        assert(b.contains(b[b.len() - 1]));
        let i = choose|i: int| 0 <= i < a.len() && a[i] == b.last();
        if top != b.last() {
            assert(precedes(b[j], b[b.len() - 1]));
            assert(precedes(a[i], a[a.len() - 1]));
            lemma_precedes_is_transitive(top, b.last(), top);
        }
        let a_rest = a.drop_last();
        let b_rest = b.drop_last();
        assert forall|m: Seq<u32>| a_rest.contains(m) <==> b_rest.contains(m) by {
            if a_rest.contains(m) {
                let s = choose|s: int| 0 <= s < a_rest.len() && a_rest[s] == m;
                assert(precedes(a[s], a[a.len() - 1]));
                assert(a.contains(a[s]));
                let t = choose|t: int| 0 <= t < b.len() && b[t] == m;
                assert(b_rest[t] == m);
            }
            if b_rest.contains(m) {
                let s = choose|s: int| 0 <= s < b_rest.len() && b_rest[s] == m;
                assert(precedes(b[s], b[b.len() - 1]));
                assert(b.contains(b[s]));
                let t = choose|t: int| 0 <= t < a.len() && a[t] == m;
                assert(a_rest[t] == m);
            }
        }
        assert forall|s: int, t: int| 0 <= s < t < a_rest.len() implies precedes(
            #[trigger] a_rest[s],
            #[trigger] a_rest[t],
        ) by {
            assert(precedes(a[s], a[t]));
        }
        assert forall|s: int, t: int| 0 <= s < t < b_rest.len() implies precedes(
            #[trigger] b_rest[s],
            #[trigger] b_rest[t],
        ) by {
            assert(precedes(b[s], b[t]));
        }
        lemma_increasing_is_unique(a_rest, b_rest);
        assert(a =~= a_rest.push(top));
        assert(b =~= b_rest.push(top));
    }
}

} // verus!
