//! The search: every connection on a ring of ports, one per class.

use vstd::prelude::*;
use crate::laws::{is_connection, lemma_classes_are_connections};
use crate::ledger::{is_new_class, Ledger};
use crate::matching::{
    decided_below, filled, is_partial, lemma_filled_is_matching, lemma_pair_is_partial, pair,
};
use crate::policy::{rows, EquivalencePolicy};

verus! {

/// Why an enumeration was refused.
#[derive(Clone, Copy, Debug, PartialEq, Eq)]
pub enum ConnectionError {
    /// The ports cannot all be paired: their number is zero or odd, or it is
    /// beyond what a port index can hold.
    InvalidArity,
}

/// The numbers of ports that can be paired up.
pub open spec fn valid_arity(num_ports: int) -> bool {
    0 < num_ports <= u32::MAX && num_ports % 2 == 0
}

/// The assignment of `n` ports in which none has a partner.
pub open spec fn unassigned(n: nat) -> Seq<Option<u32>> {
    Seq::new(n, |i: int| None::<u32>)
}

/// The connections that extend `arr`, in the order in which the search meets
/// them: the lowest open port at or after `index` is joined to each later
/// open port in turn, lowest first.
pub open spec fn completions(arr: Seq<Option<u32>>, index: int) -> Seq<Seq<u32>>
    decreases arr.len() - index, arr.len() + 1,
{
    if index < 0 || index >= arr.len() {
        seq![filled(arr)]
    } else if arr[index] is Some {
        completions(arr, index + 1)
    } else {
        branches(arr, index, arr.len() as int)
    }
}

/// The connections that extend `arr` with port `index` joined to an open port
/// below `to`, in the order in which the search meets them.
pub open spec fn branches(arr: Seq<Option<u32>>, index: int, to: int) -> Seq<Seq<u32>>
    decreases arr.len() - index, to,
{
    if index < 0 || to <= index + 1 || to > arr.len() {
        Seq::empty()
    } else {
        let earlier = branches(arr, index, to - 1);
        if arr[to - 1] is None {
            earlier + completions(pair(arr, index, to - 1), index + 1)
        } else {
            earlier
        }
    }
}

/// Every connection on `n` ports, in the order in which the search meets
/// them. That order is dictionary order, and each connection is met once; see
/// [`crate::laws::lemma_all_matchings`] and
/// [`crate::laws::lemma_all_matchings_is_the_listing`].
pub open spec fn all_matchings(n: nat) -> Seq<Seq<u32>> {
    completions(unassigned(n), 0)
}

/// The ledger after the connections of `found` have been met in turn,
/// starting from `ledger`: a connection whose class has no member in the
/// ledger adds its whole class; any other leaves the ledger as it is.
pub open spec fn ledger_after<P: EquivalencePolicy>(
    policy: &P,
    found: Seq<Seq<u32>>,
    ledger: Set<Seq<u32>>,
) -> Set<Seq<u32>>
    decreases found.len(),
{
    if found.len() == 0 {
        ledger
    } else {
        let before = ledger_after(policy, found.drop_last(), ledger);
        let class = policy.class_of(found.last());
        if is_new_class(class, before) {
            before.union(class.to_set())
        } else {
            before
        }
    }
}

/// The connections of `found` that are kept when they are met in turn,
/// starting from `ledger`: those whose class had no member in the ledger at
/// the time.
pub open spec fn representatives<P: EquivalencePolicy>(
    policy: &P,
    found: Seq<Seq<u32>>,
    ledger: Set<Seq<u32>>,
) -> Seq<Seq<u32>>
    decreases found.len(),
{
    if found.len() == 0 {
        Seq::empty()
    } else {
        let before = ledger_after(policy, found.drop_last(), ledger);
        let kept = representatives(policy, found.drop_last(), ledger);
        if is_new_class(policy.class_of(found.last()), before) {
            kept.push(found.last())
        } else {
            kept
        }
    }
}

/// The result of the enumeration on `n` ports: one connection per class, the
/// first that the search meets.
pub open spec fn classes<P: EquivalencePolicy>(policy: &P, n: nat) -> Seq<Seq<u32>> {
    representatives(policy, all_matchings(n), Set::empty())
}

/// Meeting `a` and then `b` is meeting `a + b`.
pub proof fn lemma_met_in_turn<P: EquivalencePolicy>(
    policy: &P,
    a: Seq<Seq<u32>>,
    b: Seq<Seq<u32>>,
    ledger: Set<Seq<u32>>,
)
    ensures
        ledger_after(policy, a + b, ledger) == ledger_after(
            policy,
            b,
            ledger_after(policy, a, ledger),
        ),
        representatives(policy, a + b, ledger) == representatives(policy, a, ledger)
            + representatives(policy, b, ledger_after(policy, a, ledger)),
    decreases b.len(),
{
    let mid = ledger_after(policy, a, ledger);
    if b.len() == 0 {
        assert(a + b =~= a);
        assert(representatives(policy, a, ledger) + representatives(policy, b, mid)
            =~= representatives(policy, a, ledger));
    } else {
        assert((a + b).drop_last() =~= a + b.drop_last());
        assert((a + b).last() == b.last());
        lemma_met_in_turn(policy, a, b.drop_last(), ledger);
        let kept = representatives(policy, a, ledger);
        let more = representatives(policy, b.drop_last(), mid);
        assert((kept + more).push(b.last()) =~= kept + more.push(b.last()));
    }
}

/// Meeting a single connection keeps it exactly when its class is new.
pub proof fn lemma_met_alone<P: EquivalencePolicy>(
    policy: &P,
    connection: Seq<u32>,
    ledger: Set<Seq<u32>>,
)
    ensures
        is_new_class(policy.class_of(connection), ledger) ==> {
            &&& representatives(policy, seq![connection], ledger) == seq![connection]
            &&& ledger_after(policy, seq![connection], ledger) == ledger.union(
                policy.class_of(connection).to_set(),
            )
        },
        !is_new_class(policy.class_of(connection), ledger) ==> {
            &&& representatives(policy, seq![connection], ledger) == Seq::<Seq<u32>>::empty()
            &&& ledger_after(policy, seq![connection], ledger) == ledger
        },
{
    let one = seq![connection];
    assert(one.drop_last() =~= Seq::<Seq<u32>>::empty());
    assert(one.last() == connection);
    assert(ledger_after(policy, one.drop_last(), ledger) == ledger);
    assert(representatives(policy, one.drop_last(), ledger) == Seq::<Seq<u32>>::empty());
    assert(Seq::<Seq<u32>>::empty().push(connection) =~= seq![connection]);
}

/// The connection that a fully decided assignment stands for.
fn fill(arr: &[Option<u32>]) -> (connection: Vec<u32>)
    requires
        decided_below(arr@, arr@.len() as int),
    ensures
        connection@ == filled(arr@),
{
    let mut connection: Vec<u32> = Vec::new();
    let mut i: usize = 0;
    while i < arr.len()
        invariant
            i <= arr@.len(),
            decided_below(arr@, arr@.len() as int),
            connection@ == filled(arr@).take(i as int),
        decreases arr@.len() - i,
    {
        assert(arr@[i as int] is Some);
        match arr[i] {
            Some(partner) => connection.push(partner),
            None => {},
        }
        i += 1;
        assert(connection@ =~= filled(arr@).take(i as int));
    }
    assert(filled(arr@).take(i as int) =~= filled(arr@));
    connection
}

/// Searches the connections that extend `arr` from port `index` on, and keeps
/// each whose class is new to the ledger.
pub fn connections_helper<P: EquivalencePolicy>(
    arr: &mut [Option<u32>],
    index: usize,
    policy: &P,
    ledger: &mut Ledger,
) -> (out: Vec<Vec<u32>>)
    requires
        old(arr)@.len() <= u32::MAX,
        index <= old(arr)@.len(),
        is_partial(old(arr)@),
        decided_below(old(arr)@, index as int),
        old(ledger).wf(),
    ensures
        final(arr)@ == old(arr)@,
        final(ledger).wf(),
        rows(out) == representatives(
            policy,
            completions(old(arr)@, index as int),
            old(ledger)@,
        ),
        final(ledger)@ == ledger_after(policy, completions(old(arr)@, index as int), old(ledger)@),
    decreases old(arr)@.len() - index,
{
    let ghost start = arr@;
    let ghost seen = ledger@;
    if index == arr.len() {
        let connect: Vec<u32> = fill(arr);
        proof {
            lemma_filled_is_matching(start);
            assert(completions(start, index as int) =~= seq![connect@]);
            lemma_met_alone(policy, connect@, seen);
        }
        let class: Vec<Vec<u32>> = policy.equivalents(connect.as_slice());
        let mut out: Vec<Vec<u32>> = Vec::new();
        if !ledger.contains_any(&class) {
            ledger.insert_all(&class);
            out.push(connect);
            assert(rows(out) =~= Seq::<Seq<u32>>::empty().push(connect@));
        } else {
            assert(rows(out) =~= Seq::<Seq<u32>>::empty());
        }
        out
    } else if arr[index].is_some() {
        connections_helper(arr, index + 1, policy, ledger)
    } else {
        let mut out: Vec<Vec<u32>> = Vec::new();
        let mut i: usize = index + 1;
        assert(rows(out) =~= Seq::<Seq<u32>>::empty());
        while i < arr.len()
            invariant
                index < i <= start.len(),
                start.len() <= u32::MAX,
                arr@ == start,
                start == old(arr)@,
                seen == old(ledger)@,
                is_partial(start),
                decided_below(start, index as int),
                start[index as int] is None,
                ledger.wf(),
                rows(out) == representatives(policy, branches(start, index as int, i as int), seen),
                ledger@ == ledger_after(policy, branches(start, index as int, i as int), seen),
            decreases start.len() - i,
        {
            if arr[i].is_none() {
                let ghost kept = rows(out);
                let ghost mid = ledger@;
                let ghost next = pair(start, index as int, i as int);
                arr[index] = Some(i as u32);
                arr[i] = Some(index as u32);
                proof {
                    lemma_pair_is_partial(start, index as int, i as int);
                    assert(arr@ == next);
                    assert(decided_below(next, index + 1));
                }
                let mut found: Vec<Vec<u32>> = connections_helper(arr, index + 1, policy, ledger);
                let ghost more = rows(found);
                out.append(&mut found);
                arr[index] = None;
                arr[i] = None;
                proof {
                    assert(arr@ =~= start);
                    assert(rows(out) =~= kept + more);
                    lemma_met_in_turn(
                        policy,
                        branches(start, index as int, i as int),
                        completions(next, index + 1),
                        seen,
                    );
                }
            }
            i += 1;
        }
        out
    }
}

/// Every way to join `num_ports` ports two at a time, one for each class of
/// the policy: the first of the class in the order of the search.
///
/// In a connection `c`, `c[i] == j` exactly when port `i` is joined to port
/// `j`. The number of ports must be even and positive, and small enough for a
/// port index to hold; any other number is refused. The policy is trusted to
/// be an equivalence relation, which is not tested here: what the result is
/// under any policy is stated below, and [`crate::laws`] states what follows
/// when the policy is one.
pub fn connections<P: EquivalencePolicy>(num_ports: usize, policy: &P) -> (result: Result<
    Vec<Vec<u32>>,
    ConnectionError,
>)
    ensures
        valid_arity(num_ports as int) ==> result is Ok && rows(result->Ok_0) == classes(
            policy,
            num_ports as nat,
        ),
        result is Ok ==> forall|k: int|
            0 <= k < rows(result->Ok_0).len() ==> is_connection(
                num_ports as nat,
                #[trigger] rows(result->Ok_0)[k],
            ),
        !valid_arity(num_ports as int) ==> result == Err::<Vec<Vec<u32>>, ConnectionError>(
            ConnectionError::InvalidArity,
        ),
{
    if num_ports == 0 || num_ports % 2 != 0 || num_ports > u32::MAX as usize {
        return Err(ConnectionError::InvalidArity);
    }
    let mut arr: Vec<Option<u32>> = Vec::new();
    let mut i: usize = 0;
    while i < num_ports
        invariant
            i <= num_ports,
            arr@ == unassigned(i as nat),
        decreases num_ports - i,
    {
        arr.push(None);
        i += 1;
        assert(arr@ =~= unassigned(i as nat));
    }
    let mut ledger = Ledger::new();
    let found = connections_helper(arr.as_mut_slice(), 0, policy, &mut ledger);
    proof {
        lemma_classes_are_connections(policy, num_ports as nat);
    }
    Ok(found)
}

} // verus!
