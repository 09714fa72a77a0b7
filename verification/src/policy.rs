//! Equivalence policies: which connections count as the same tile.

use vstd::prelude::*;
use crate::matching::is_matching;

verus! {

/// The connections held by a vector of vectors, in order.
pub open spec fn rows(v: Vec<Vec<u32>>) -> Seq<Seq<u32>> {
    Seq::new(v@.len(), |i: int| v@[i]@)
}

/// A symmetry under which connections are counted once per class.
///
/// `class_of` names every connection that is to be treated as the same as the
/// given one. The enumeration finds each class exactly once when the policy
/// is reflexive, symmetric and transitive on connections; see
/// [`crate::laws::is_equivalence`].
pub trait EquivalencePolicy {
    /// The members of the class of `connection`; repeats are allowed.
    spec fn class_of(&self, connection: Seq<u32>) -> Seq<Seq<u32>>;

    /// Computes the class of `connection`.
    fn equivalents(&self, connection: &[u32]) -> (class: Vec<Vec<u32>>)
        requires
            is_matching(connection@),
            connection@.len() <= u32::MAX,
        ensures
            rows(class) == self.class_of(connection@),
    ;
}

/// The policy under which every connection is alone in its class.
#[derive(Clone, Copy, Debug)]
pub struct Identity;

/// The policy under which a connection and its half turn are the same.
#[derive(Clone, Copy, Debug)]
pub struct Rotation180;

/// The connection turned by half the ring: port `i` takes the partner of the
/// port half a ring away, moved on by half a ring as well.
pub open spec fn rotate_180(c: Seq<u32>) -> Seq<u32> {
    let n = c.len() as int;
    let h = n / 2;
    Seq::new(c.len(), |i: int| ((c[(i + h) % n] as int + h) % n) as u32)
}

/// A copy of `connection` as a vector.
pub fn copy_connection(connection: &[u32]) -> (copy: Vec<u32>)
    ensures
        copy@ == connection@,
{
    let mut copy: Vec<u32> = Vec::new();
    let mut i: usize = 0;
    while i < connection.len()
        invariant
            i <= connection@.len(),
            copy@ == connection@.take(i as int),
        decreases connection@.len() - i,
    {
        copy.push(connection[i]);
        i += 1;
        assert(copy@ =~= connection@.take(i as int));
    }
    assert(connection@.take(i as int) =~= connection@);
    copy
}

/// The connection itself, followed by its half turn.
pub fn equivalent_rotation_180(connection: &[u32]) -> (class: Vec<Vec<u32>>)
    requires
        connection@.len() <= u32::MAX,
    ensures
        rows(class) == seq![connection@, rotate_180(connection@)],
{
    let len: usize = connection.len();
    let split: usize = len / 2;
    let mut turned: Vec<u32> = Vec::new();
    let mut i: usize = 0;
    while i < len
        invariant
            len == connection@.len(),
            len <= u32::MAX,
            split == len / 2,
            i <= len,
            turned@ == rotate_180(connection@).take(i as int),
        decreases len - i,
    {
        let from: u64 = (i as u64 + split as u64) % (len as u64);
        let moved: u64 = (connection[from as usize] as u64 + split as u64) % (len as u64);
        turned.push(moved as u32);
        i += 1;
        assert(turned@ =~= rotate_180(connection@).take(i as int));
    }
    assert(rotate_180(connection@).take(i as int) =~= rotate_180(connection@));
    let mut class: Vec<Vec<u32>> = Vec::new();
    class.push(copy_connection(connection));
    class.push(turned);
    assert(rows(class) =~= seq![connection@, rotate_180(connection@)]);
    class
}

impl EquivalencePolicy for Identity {
    open spec fn class_of(&self, connection: Seq<u32>) -> Seq<Seq<u32>> {
        seq![connection]
    }

    fn equivalents(&self, connection: &[u32]) -> (class: Vec<Vec<u32>>) {
        let mut class: Vec<Vec<u32>> = Vec::new();
        class.push(copy_connection(connection));
        assert(rows(class) =~= seq![connection@]);
        class
    }
}

impl EquivalencePolicy for Rotation180 {
    open spec fn class_of(&self, connection: Seq<u32>) -> Seq<Seq<u32>> {
        seq![connection, rotate_180(connection)]
    }

    fn equivalents(&self, connection: &[u32]) -> (class: Vec<Vec<u32>>) {
        equivalent_rotation_180(connection)
    }
}

} // verus!
