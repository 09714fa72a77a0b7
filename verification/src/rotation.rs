//! The policies of this library are equivalence relations: the identity on
//! every ring, the half turn on every even ring.

use vstd::prelude::*;
use vstd::arithmetic::div_mod::lemma_fundamental_div_mod_converse;
use crate::laws::{equivalent, is_connection, is_equivalence};
use crate::policy::{rotate_180, EquivalencePolicy, Identity, Rotation180};

verus! {

/// The port half a ring away from port `x` on a ring of `n` ports.
pub open spec fn opposite(n: int, x: int) -> int {
    if x < n / 2 {
        x + n / 2
    } else {
        x - n / 2
    }
}

/// Moving on by half a ring, modulo the ring, gives the opposite port.
proof fn lemma_opposite(n: int, x: int)
    requires
        n > 0,
        n % 2 == 0,
        0 <= x < n,
    ensures
        (x + n / 2) % n == opposite(n, x),
        0 <= opposite(n, x) < n,
        opposite(n, opposite(n, x)) == x,
{
    if x < n / 2 {
        lemma_fundamental_div_mod_converse(x + n / 2, n, 0, x + n / 2);
    } else {
        lemma_fundamental_div_mod_converse(x + n / 2, n, 1, x - n / 2);
    }
}

/// In the half turn of a connection, port `i` is joined to the port opposite
/// the partner of the port opposite `i`.
proof fn lemma_rotate_180_at(n: nat, c: Seq<u32>, i: int)
    requires
        0 < n <= u32::MAX,
        n % 2 == 0,
        is_connection(n, c),
        0 <= i < n,
    ensures
        rotate_180(c)[i] == opposite(n as int, c[opposite(n as int, i)] as int),
{
    lemma_opposite(n as int, i);
    let across = opposite(n as int, i);
    assert(c[across] < n);
    lemma_opposite(n as int, c[across] as int);
}

/// The half turn of a connection is a connection, and its own half turn is
/// the connection again.
pub proof fn lemma_rotate_180(n: nat, c: Seq<u32>)
    requires
        n <= u32::MAX,
        n % 2 == 0,
        is_connection(n, c),
    ensures
        is_connection(n, rotate_180(c)),
        rotate_180(rotate_180(c)) == c,
{
    let turned = rotate_180(c);
    let ring = n as int;
    if n == 0 {
        assert(rotate_180(turned) =~= c);
    } else {
        assert forall|i: int| 0 <= i < turned.len() implies {
            &&& (#[trigger] turned[i]) < turned.len()
            &&& turned[i] != i
            &&& turned[turned[i] as int] == i
        } by {
            let across = opposite(ring, i);
            lemma_opposite(ring, i);
            lemma_rotate_180_at(n, c, i);
            let partner = c[across] as int;
            assert(c[partner] == across);
            lemma_opposite(ring, partner);
            lemma_rotate_180_at(n, c, opposite(ring, partner));
        }
        assert(is_connection(n, turned));
        assert forall|i: int| 0 <= i < n implies rotate_180(turned)[i] == c[i] by {
            let across = opposite(ring, i);
            lemma_opposite(ring, i);
            lemma_rotate_180_at(n, turned, i);
            lemma_rotate_180_at(n, c, across);
            assert(c[i] < n);
            lemma_opposite(ring, c[i] as int);
        }
        assert(rotate_180(turned) =~= c);
    }
}

/// The identity policy is an equivalence relation.
pub proof fn lemma_identity_is_equivalence(n: nat)
    ensures
        is_equivalence(&Identity, n),
{
    assert forall|a: Seq<u32>| #[trigger] is_connection(n, a) implies equivalent(
        &Identity,
        a,
        a,
    ) by {
        assert(Identity.class_of(a)[0] == a);
    }
}

/// The class of a connection under the half-turn policy is the connection
/// and its half turn.
proof fn lemma_rotation_class(a: Seq<u32>, b: Seq<u32>)
    ensures
        equivalent(&Rotation180, a, b) <==> (b == a || b == rotate_180(a)),
{
    let class = Rotation180.class_of(a);
    assert(class[0] == a);
    assert(class[1] == rotate_180(a));
}

/// Under the half-turn policy a member of a connection's class is a
/// connection with that connection in its class.
proof fn lemma_rotation_is_symmetric(n: nat, a: Seq<u32>, b: Seq<u32>)
    requires
        n <= u32::MAX,
        n % 2 == 0,
        is_connection(n, a),
        equivalent(&Rotation180, a, b),
    ensures
        is_connection(n, b),
        equivalent(&Rotation180, b, a),
{
    lemma_rotate_180(n, a);
    lemma_rotation_class(a, b);
    lemma_rotation_class(b, a);
}

/// Under the half-turn policy a member of the class of a member is a member.
proof fn lemma_rotation_is_transitive(n: nat, a: Seq<u32>, b: Seq<u32>, c: Seq<u32>)
    requires
        n <= u32::MAX,
        n % 2 == 0,
        is_connection(n, a),
        equivalent(&Rotation180, a, b),
        equivalent(&Rotation180, b, c),
    ensures
        equivalent(&Rotation180, a, c),
{
    lemma_rotate_180(n, a);
    lemma_rotation_class(a, b);
    lemma_rotation_class(b, c);
    lemma_rotation_class(a, c);
}

/// On an even ring the half-turn policy is an equivalence relation.
pub proof fn lemma_rotation_is_equivalence(n: nat)
    requires
        n <= u32::MAX,
        n % 2 == 0,
    ensures
        is_equivalence(&Rotation180, n),
{
    let policy = &Rotation180;
    assert forall|a: Seq<u32>| #[trigger] is_connection(n, a) implies equivalent(policy, a, a) by {
        lemma_rotation_class(a, a);
    }
    assert forall|a: Seq<u32>, b: Seq<u32>|
        is_connection(n, a) && #[trigger] equivalent(policy, a, b) implies is_connection(n, b)
        && equivalent(policy, b, a) by {
        lemma_rotation_is_symmetric(n, a, b);
    }
    assert forall|a: Seq<u32>, b: Seq<u32>, c: Seq<u32>|
        is_connection(n, a) && #[trigger] equivalent(policy, a, b) && #[trigger] equivalent(
            policy,
            b,
            c,
        ) implies equivalent(policy, a, c) by {
        lemma_rotation_is_transitive(n, a, b, c);
    }
}

} // verus!
