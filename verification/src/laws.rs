//! What holds of every enumeration.

use vstd::prelude::*;
use crate::enumerate::{all_matchings, classes, ledger_after, representatives, unassigned};
use crate::ledger::is_new_class;
use crate::matching::is_matching;
use crate::policy::{rows, EquivalencePolicy, Identity};
use crate::search::{
    double_factorial, extends, increasing, lemma_completions_complete, lemma_completions_count,
    lemma_completions_distinct, lemma_completions_increasing, lemma_completions_sound,
    lemma_increasing_is_unique, open_ports, precedes,
};

verus! {

/// `c` is a connection on `n` ports.
pub open spec fn is_connection(n: nat, c: Seq<u32>) -> bool {
    c.len() == n && is_matching(c)
}

/// The policy counts `b` as the same as `a`.
pub open spec fn equivalent<P: EquivalencePolicy>(policy: &P, a: Seq<u32>, b: Seq<u32>) -> bool {
    policy.class_of(a).contains(b)
}

/// On the connections on `n` ports the policy is an equivalence relation:
/// a class holds connections on `n` ports only, every connection is in its
/// own class, and membership is symmetric and transitive.
pub open spec fn is_equivalence<P: EquivalencePolicy>(policy: &P, n: nat) -> bool {
    &&& forall|a: Seq<u32>| #[trigger] is_connection(n, a) ==> equivalent(policy, a, a)
    &&& forall|a: Seq<u32>, b: Seq<u32>|
        is_connection(n, a) && #[trigger] equivalent(policy, a, b) ==> is_connection(n, b)
            && equivalent(policy, b, a)
    &&& forall|a: Seq<u32>, b: Seq<u32>, c: Seq<u32>|
        is_connection(n, a) && #[trigger] equivalent(policy, a, b) && #[trigger] equivalent(
            policy,
            b,
            c,
        ) ==> equivalent(policy, a, c)
}

/// `m` is kept, or its class shares a member with the class of a connection
/// that is kept.
pub open spec fn accounted<P: EquivalencePolicy>(
    policy: &P,
    kept: Seq<Seq<u32>>,
    m: Seq<u32>,
) -> bool {
    ||| kept.contains(m)
    ||| exists|k: int, e: Seq<u32>|
        0 <= k < kept.len() && equivalent(policy, m, e) && #[trigger] equivalent(
            policy,
            kept[k],
            e,
        )
}

/// What holds of the connections kept from `found` and of the ledger that
/// they leave, whatever the policy: each kept connection was found; the
/// ledger holds exactly the classes of the kept connections; these classes
/// share no member; and every connection found is accounted for.
pub open spec fn kept_one_per_class<P: EquivalencePolicy>(
    policy: &P,
    found: Seq<Seq<u32>>,
) -> bool {
    let kept = representatives(policy, found, Set::empty());
    let ledger = ledger_after(policy, found, Set::empty());
    &&& forall|k: int| 0 <= k < kept.len() ==> found.contains(#[trigger] kept[k])
    &&& forall|k: int, e: Seq<u32>|
        0 <= k < kept.len() && #[trigger] equivalent(policy, kept[k], e) ==> ledger.contains(e)
    &&& forall|e: Seq<u32>| #[trigger]
        ledger.contains(e) ==> exists|k: int|
            0 <= k < kept.len() && #[trigger] equivalent(policy, kept[k], e)
    &&& forall|i: int, j: int, e: Seq<u32>|
        #![trigger equivalent(policy, kept[i], e), equivalent(policy, kept[j], e)]
        0 <= i < j < kept.len() && equivalent(policy, kept[i], e) ==> !equivalent(
            policy,
            kept[j],
            e,
        )
    &&& forall|t: int| 0 <= t < found.len() ==> accounted(policy, kept, #[trigger] found[t])
}

/// A connection accounted for stays so when one more is kept.
proof fn lemma_accounted_grows<P: EquivalencePolicy>(
    policy: &P,
    kept: Seq<Seq<u32>>,
    more: Seq<u32>,
    m: Seq<u32>,
)
    requires
        accounted(policy, kept, m),
    ensures
        accounted(policy, kept.push(more), m),
{
    let longer = kept.push(more);
    if kept.contains(m) {
        let k = choose|k: int| 0 <= k < kept.len() && kept[k] == m;
        assert(longer[k] == m);
    } else {
        let (k, e) = choose|k: int, e: Seq<u32>|
            0 <= k < kept.len() && equivalent(policy, m, e) && #[trigger] equivalent(
                policy,
                kept[k],
                e,
            );
        assert(longer[k] == kept[k]);
        assert(equivalent(policy, longer[k], e));
    }
}

/// The enumeration keeps one connection per class of those it finds.
pub proof fn lemma_kept_one_per_class<P: EquivalencePolicy>(policy: &P, found: Seq<Seq<u32>>)
    ensures
        kept_one_per_class(policy, found),
    decreases found.len(),
{
    let none = Set::<Seq<u32>>::empty();
    let kept = representatives(policy, found, none);
    let ledger = ledger_after(policy, found, none);
    if found.len() > 0 {
        let shorter = found.drop_last();
        let last = found.last();
        let class = policy.class_of(last);
        let kept_before = representatives(policy, shorter, none);
        let before = ledger_after(policy, shorter, none);
        lemma_kept_one_per_class(policy, shorter);
        assert forall|k: int| 0 <= k < kept_before.len() implies found.contains(
            #[trigger] kept_before[k],
        ) by {
            let t = choose|t: int| 0 <= t < shorter.len() && shorter[t] == kept_before[k];
            assert(found[t] == kept_before[k]);
        }
        if is_new_class(class, before) {
            assert(kept == kept_before.push(last));
            assert(ledger == before.union(class.to_set()));
            assert(found[found.len() - 1] == last);
            assert forall|k: int| 0 <= k < kept.len() implies found.contains(
                #[trigger] kept[k],
            ) by {
                if k < kept_before.len() {
                    assert(kept[k] == kept_before[k]);
                }
            }
            assert forall|k: int, e: Seq<u32>|
                0 <= k < kept.len() && #[trigger] equivalent(
                    policy,
                    kept[k],
                    e,
                ) implies ledger.contains(e) by {
                if k < kept_before.len() {
                    assert(equivalent(policy, kept_before[k], e));
                } else {
                    assert(class.to_set().contains(e));
                }
            }
            assert forall|e: Seq<u32>| #[trigger] ledger.contains(e) implies exists|k: int|
                0 <= k < kept.len() && #[trigger] equivalent(policy, kept[k], e) by {
                if before.contains(e) {
                    let k = choose|k: int|
                        0 <= k < kept_before.len() && #[trigger] equivalent(
                            policy,
                            kept_before[k],
                            e,
                        );
                    assert(equivalent(policy, kept[k], e));
                } else {
                    assert(class.to_set().contains(e));
                    assert(equivalent(policy, kept[kept_before.len() as int], e));
                }
            }
            assert forall|i: int, j: int, e: Seq<u32>|
                #![trigger equivalent(policy, kept[i], e), equivalent(policy, kept[j], e)]
                0 <= i < j < kept.len() && equivalent(policy, kept[i], e) implies !equivalent(
                policy,
                kept[j],
                e,
            ) by {
                assert(equivalent(policy, kept_before[i], e));
                if j < kept_before.len() {
                    assert(kept[j] == kept_before[j]);
                    if equivalent(policy, kept[j], e) {
                        assert(equivalent(policy, kept_before[j], e));
                    }
                } else {
                    assert(before.contains(e));
                    if class.contains(e) {
                        let at = choose|at: int| 0 <= at < class.len() && class[at] == e;
                        assert(!before.contains(class[at]));
                    }
                }
            }
            assert forall|t: int| 0 <= t < found.len() implies accounted(
                policy,
                kept,
                #[trigger] found[t],
            ) by {
                if t < shorter.len() {
                    assert(found[t] == shorter[t]);
                    lemma_accounted_grows(policy, kept_before, last, shorter[t]);
                } else {
                    assert(kept[kept_before.len() as int] == last);
                }
            }
        } else {
            assert(kept == kept_before);
            assert(ledger == before);
            assert forall|t: int| 0 <= t < found.len() implies accounted(
                policy,
                kept,
                #[trigger] found[t],
            ) by {
                if t < shorter.len() {
                    assert(found[t] == shorter[t]);
                } else {
                    let at = choose|at: int|
                        0 <= at < class.len() && before.contains(#[trigger] class[at]);
                    let e = class[at];
                    assert(equivalent(policy, last, e));
                    let k = choose|k: int|
                        0 <= k < kept.len() && #[trigger] equivalent(policy, kept[k], e);
                    assert(equivalent(policy, kept[k], e));
                }
            }
        }
    }
}

/// The search from the empty assignment meets exactly the connections on
/// `n` ports, each once, in strictly increasing dictionary order.
pub proof fn lemma_all_matchings(n: nat)
    requires
        n <= u32::MAX,
    ensures
        all_matchings(n).no_duplicates(),
        increasing(all_matchings(n)),
        forall|t: int|
            0 <= t < all_matchings(n).len() ==> is_connection(n, #[trigger] all_matchings(n)[t]),
        forall|m: Seq<u32>| #[trigger] is_connection(n, m) ==> all_matchings(n).contains(m),
{
    let start = unassigned(n);
    lemma_completions_sound(start, 0);
    lemma_completions_distinct(start, 0);
    lemma_completions_increasing(start, 0);
    assert forall|m: Seq<u32>| #[trigger] is_connection(n, m) implies all_matchings(n).contains(
        m,
    ) by {
        assert(extends(start, m));
        lemma_completions_complete(start, 0, m);
    }
}

/// The order of the search is dictionary order: a listing of exactly the
/// connections on `n` ports in strictly increasing dictionary order is the
/// listing that the search gives.
pub proof fn lemma_all_matchings_is_the_listing(n: nat, listing: Seq<Seq<u32>>)
    requires
        n <= u32::MAX,
        increasing(listing),
        forall|m: Seq<u32>| listing.contains(m) <==> is_connection(n, m),
    ensures
        listing == all_matchings(n),
{
    let found = all_matchings(n);
    lemma_all_matchings(n);
    assert forall|m: Seq<u32>| listing.contains(m) <==> found.contains(m) by {
        if found.contains(m) {
            let t = choose|t: int| 0 <= t < found.len() && found[t] == m;
            assert(is_connection(n, found[t]));
        }
    }
    lemma_increasing_is_unique(listing, found);
}

/// On an even number of ports there are `(n - 1)!!` connections.
pub proof fn lemma_all_matchings_count(n: nat)
    requires
        n <= u32::MAX,
        n % 2 == 0,
    ensures
        all_matchings(n).len() == double_factorial(n - 1),
{
    lemma_unassigned_is_open(n, n as int);
    lemma_completions_count(unassigned(n), 0);
}

/// Every port of the empty assignment is open.
proof fn lemma_unassigned_is_open(n: nat, to: int)
    requires
        0 <= to <= n,
    ensures
        open_ports(unassigned(n), 0, to) == to,
    decreases to,
{
    if to > 0 {
        lemma_unassigned_is_open(n, to - 1);
    }
}

/// Every connection kept by the enumeration is a connection on `n` ports.
pub proof fn lemma_classes_are_connections<P: EquivalencePolicy>(policy: &P, n: nat)
    requires
        n <= u32::MAX,
    ensures
        forall|k: int|
            0 <= k < classes(policy, n).len() ==> is_connection(
                n,
                #[trigger] classes(policy, n)[k],
            ),
{
    let found = all_matchings(n);
    let kept = classes(policy, n);
    lemma_all_matchings(n);
    lemma_kept_one_per_class(policy, found);
    assert forall|k: int| 0 <= k < kept.len() implies is_connection(n, #[trigger] kept[k]) by {
        assert(found.contains(kept[k]));
        let t = choose|t: int| 0 <= t < found.len() && found[t] == kept[k];
        assert(is_connection(n, found[t]));
    }
}

/// No two connections of an enumeration are equivalent: under a policy that
/// is an equivalence relation, no class is kept twice.
pub proof fn lemma_pairwise_inequivalent<P: EquivalencePolicy>(
    policy: &P,
    n: nat,
    i: int,
    j: int,
)
    requires
        n <= u32::MAX,
        is_equivalence(policy, n),
        0 <= i < classes(policy, n).len(),
        0 <= j < classes(policy, n).len(),
        i != j,
    ensures
        !equivalent(policy, classes(policy, n)[i], classes(policy, n)[j]),
{
    let kept = classes(policy, n);
    lemma_classes_are_connections(policy, n);
    lemma_kept_one_per_class(policy, all_matchings(n));
    assert(is_connection(n, kept[i]));
    assert(is_connection(n, kept[j]));
    assert(equivalent(policy, kept[j], kept[j]));
    if equivalent(policy, kept[i], kept[j]) {
        if i < j {
            assert(!equivalent(policy, kept[j], kept[j]));
        } else {
            assert(!equivalent(policy, kept[i], kept[j]));
        }
    }
}

/// The connection at `k` is the only one of `kept` that is equivalent to `m`.
pub open spec fn represents_alone<P: EquivalencePolicy>(
    policy: &P,
    kept: Seq<Seq<u32>>,
    k: int,
    m: Seq<u32>,
) -> bool {
    &&& 0 <= k < kept.len()
    &&& equivalent(policy, kept[k], m)
    &&& forall|j: int| 0 <= j < kept.len() && #[trigger] equivalent(policy, kept[j], m) ==> j == k
}

/// Every connection on `n` ports is equivalent to exactly one connection of
/// the enumeration: under a policy that is an equivalence relation, no class
/// is missed.
pub proof fn lemma_exactly_one_representative<P: EquivalencePolicy>(
    policy: &P,
    n: nat,
    m: Seq<u32>,
)
    requires
        n <= u32::MAX,
        is_equivalence(policy, n),
        is_connection(n, m),
    ensures
        exists|k: int| represents_alone(policy, classes(policy, n), k, m),
{
    let found = all_matchings(n);
    let kept = classes(policy, n);
    lemma_all_matchings(n);
    lemma_classes_are_connections(policy, n);
    lemma_kept_one_per_class(policy, found);
    let t = choose|t: int| 0 <= t < found.len() && found[t] == m;
    assert(accounted(policy, kept, found[t]));
    let k = if kept.contains(m) {
        choose|k: int| 0 <= k < kept.len() && kept[k] == m
    } else {
        let (k, e) = choose|k: int, e: Seq<u32>|
            0 <= k < kept.len() && equivalent(policy, m, e) && #[trigger] equivalent(
                policy,
                kept[k],
                e,
            );
        assert(is_connection(n, kept[k]));
        assert(equivalent(policy, e, m));
        k
    };
    assert(is_connection(n, kept[k]));
    assert(equivalent(policy, kept[k], m));
    assert forall|j: int| 0 <= j < kept.len() && #[trigger] equivalent(
        policy,
        kept[j],
        m,
    ) implies j == k by {
        assert(is_connection(n, kept[j]));
        assert(equivalent(policy, m, kept[k]));
        assert(equivalent(policy, kept[j], kept[k]));
        if j != k {
            lemma_pairwise_inequivalent(policy, n, j, k);
        }
    }
    assert(represents_alone(policy, kept, k, m));
}

/// The `k`-th connection kept from `found` stands at position `t` of `found`,
/// and `k` connections were kept from those before it.
pub open spec fn kept_at<P: EquivalencePolicy>(
    policy: &P,
    found: Seq<Seq<u32>>,
    k: int,
    t: int,
) -> bool {
    let kept = representatives(policy, found, Set::empty());
    &&& 0 <= t < found.len()
    &&& 0 <= k < kept.len()
    &&& found[t] == kept[k]
    &&& representatives(policy, found.take(t), Set::empty()) == kept.take(k)
}

/// Every kept connection has its place among the connections found.
pub proof fn lemma_kept_at<P: EquivalencePolicy>(policy: &P, found: Seq<Seq<u32>>, k: int)
    requires
        0 <= k < representatives(policy, found, Set::empty()).len(),
    ensures
        exists|t: int| kept_at(policy, found, k, t),
    decreases found.len(),
{
    let none = Set::<Seq<u32>>::empty();
    let kept = representatives(policy, found, none);
    let shorter = found.drop_last();
    let kept_before = representatives(policy, shorter, none);
    if k < kept_before.len() {
        lemma_kept_at(policy, shorter, k);
        let t = choose|t: int| kept_at(policy, shorter, k, t);
        assert(shorter.take(t) =~= found.take(t));
        assert(kept_before.take(k) =~= kept.take(k));
        assert(kept_at(policy, found, k, t));
    } else {
        let t = found.len() - 1;
        assert(found.take(t) =~= shorter);
        assert(kept.take(k) =~= kept_before);
        assert(kept_at(policy, found, k, t));
    }
}

/// Each connection of the enumeration is the least of its class in
/// dictionary order: under a policy that is an equivalence relation, every
/// other connection equivalent to it comes after it.
pub proof fn lemma_representative_is_least<P: EquivalencePolicy>(
    policy: &P,
    n: nat,
    k: int,
    m: Seq<u32>,
)
    requires
        n <= u32::MAX,
        is_equivalence(policy, n),
        0 <= k < classes(policy, n).len(),
        equivalent(policy, classes(policy, n)[k], m),
        m != classes(policy, n)[k],
    ensures
        precedes(classes(policy, n)[k], m),
{
    let found = all_matchings(n);
    let kept = classes(policy, n);
    lemma_all_matchings(n);
    lemma_classes_are_connections(policy, n);
    lemma_kept_at(policy, found, k);
    let t = choose|t: int| kept_at(policy, found, k, t);
    assert(is_connection(n, kept[k]));
    assert(is_connection(n, m));
    assert(equivalent(policy, m, kept[k]));
    let s = choose|s: int| 0 <= s < found.len() && found[s] == m;
    if s < t {
        let sooner = found.take(t);
        let kept_sooner = kept.take(k);
        lemma_kept_one_per_class(policy, sooner);
        assert(sooner[s] == m);
        assert(accounted(policy, kept_sooner, m));
        if kept_sooner.contains(m) {
            let j = choose|j: int| 0 <= j < kept_sooner.len() && kept_sooner[j] == m;
            assert(kept[j] == m);
            lemma_pairwise_inequivalent(policy, n, k, j);
        } else {
            let (j, e) = choose|j: int, e: Seq<u32>|
                0 <= j < kept_sooner.len() && equivalent(policy, m, e) && #[trigger] equivalent(
                    policy,
                    kept_sooner[j],
                    e,
                );
            assert(kept_sooner[j] == kept[j]);
            assert(is_connection(n, kept[j]));
            assert(equivalent(policy, e, m));
            assert(equivalent(policy, kept[j], m));
            assert(equivalent(policy, kept[j], kept[k]));
            lemma_pairwise_inequivalent(policy, n, j, k);
        }
    }
    assert(precedes(found[t], found[s]));
}

/// Under the identity policy every connection found is kept.
proof fn lemma_identity_keeps_all(found: Seq<Seq<u32>>)
    requires
        found.no_duplicates(),
    ensures
        representatives(&Identity, found, Set::empty()) == found,
        ledger_after(&Identity, found, Set::empty()) == found.to_set(),
    decreases found.len(),
{
    let none = Set::<Seq<u32>>::empty();
    if found.len() == 0 {
        assert(found =~= Seq::<Seq<u32>>::empty());
        assert(found.to_set() =~= none);
    } else {
        let shorter = found.drop_last();
        let last = found.last();
        lemma_identity_keeps_all(shorter);
        let class = Identity.class_of(last);
        assert(class =~= seq![last]);
        assert forall|k: int| 0 <= k < class.len() implies !shorter.to_set().contains(
            #[trigger] class[k],
        ) by {
            if shorter.contains(last) {
                let t = choose|t: int| 0 <= t < shorter.len() && shorter[t] == last;
                assert(found[t] == found[found.len() - 1]);
            }
        }
        assert(is_new_class(class, shorter.to_set()));
        assert(shorter.push(last) =~= found);
        assert forall|c: Seq<u32>| found.to_set().contains(c) == shorter.to_set().union(
            class.to_set(),
        ).contains(c) by {
            if found.contains(c) {
                let t = choose|t: int| 0 <= t < found.len() && found[t] == c;
                if t < shorter.len() {
                    assert(shorter[t] == c);
                } else {
                    assert(class[0] == c);
                }
            }
            if shorter.contains(c) {
                let t = choose|t: int| 0 <= t < shorter.len() && shorter[t] == c;
                assert(found[t] == c);
            }
            if class.contains(c) {
                assert(found[found.len() - 1] == c);
            }
        }
        assert(found.to_set() =~= shorter.to_set().union(class.to_set()));
    }
}

/// With every connection alone in its class, the enumeration on an even
/// number `n` of ports gives exactly `(n - 1)!!` connections, all different,
/// and each pairs every port with another: it gives every connection that
/// the search meets.
pub proof fn lemma_identity_enumerates_all(n: nat)
    requires
        n <= u32::MAX,
        n % 2 == 0,
    ensures
        classes(&Identity, n) == all_matchings(n),
        classes(&Identity, n).len() == double_factorial(n - 1),
        classes(&Identity, n).no_duplicates(),
        forall|k: int|
            0 <= k < classes(&Identity, n).len() ==> is_connection(
                n,
                #[trigger] classes(&Identity, n)[k],
            ),
{
    lemma_all_matchings(n);
    lemma_all_matchings_count(n);
    lemma_identity_keeps_all(all_matchings(n));
}

/// Two enumerations with the same arguments give the same connections in the
/// same order.
pub proof fn lemma_enumeration_is_repeatable<P: EquivalencePolicy>(
    policy: &P,
    n: nat,
    first: Vec<Vec<u32>>,
    second: Vec<Vec<u32>>,
)
    requires
        rows(first) == classes(policy, n),
        rows(second) == classes(policy, n),
    ensures
        first@.len() == second@.len(),
        forall|k: int| 0 <= k < first@.len() ==> (#[trigger] first@[k])@ == second@[k]@,
{
    assert(rows(first).len() == first@.len());
    assert(rows(second).len() == second@.len());
    assert forall|k: int| 0 <= k < first@.len() implies (#[trigger] first@[k])@
        == second@[k]@ by {
        assert(rows(first)[k] == first@[k]@);
        assert(rows(second)[k] == second@[k]@);
    }
}

} // verus!
