//! The ledger of connections that the search has accounted for.

use vstd::prelude::*;
use vstd::seq_lib::seq_to_set_is_finite;
use crate::policy::{copy_connection, rows};

verus! {

/// No member of `class` is in `ledger`.
pub open spec fn is_new_class(class: Seq<Seq<u32>>, ledger: Set<Seq<u32>>) -> bool {
    forall|k: int| 0 <= k < class.len() ==> !ledger.contains(#[trigger] class[k])
}

/// Whether two connections are equal, port by port.
pub fn same_connection(a: &[u32], b: &[u32]) -> (same: bool)
    ensures
        same == (a@ == b@),
{
    if a.len() != b.len() {
        return false;
    }
    let mut i: usize = 0;
    while i < a.len()
        invariant
            a@.len() == b@.len(),
            i <= a@.len(),
            a@.take(i as int) == b@.take(i as int),
        decreases a@.len() - i,
    {
        if a[i] != b[i] {
            return false;
        }
        i += 1;
        assert(a@.take(i as int) =~= a@.take(i - 1).push(a@[i - 1]));
        assert(b@.take(i as int) =~= b@.take(i - 1).push(b@[i - 1]));
    }
    assert(a@.take(i as int) =~= a@);
    assert(b@.take(i as int) =~= b@);
    true
}

/// An insert-only set of connections. Each connection is stored once.
pub struct Ledger {
    entries: Vec<Vec<u32>>,
}

impl View for Ledger {
    type V = Set<Seq<u32>>;

    closed spec fn view(&self) -> Set<Seq<u32>> {
        Set::new(
            |c: Seq<u32>|
                exists|i: int| 0 <= i < self.entries@.len() && (#[trigger] self.entries@[i])@ == c,
        )
    }
}

impl Ledger {
    /// No connection is stored twice.
    pub closed spec fn wf(&self) -> bool {
        forall|i: int, j: int|
            0 <= i < j < self.entries@.len() ==> (#[trigger] self.entries@[i])@
                != (#[trigger] self.entries@[j])@
    }

    /// The empty ledger.
    pub fn new() -> (ledger: Ledger)
        ensures
            ledger.wf(),
            ledger@ == Set::<Seq<u32>>::empty(),
    {
        let ledger = Ledger { entries: Vec::new() };
        assert(ledger@ =~= Set::<Seq<u32>>::empty());
        ledger
    }

    /// The number of connections inserted.
    pub fn len(&self) -> (count: usize)
        requires
            self.wf(),
        ensures
            self@.finite(),
            count == self@.len(),
    {
        proof {
            let held = rows(self.entries);
            assert(held.no_duplicates());
            held.unique_seq_to_set();
            seq_to_set_is_finite(held);
            assert forall|c: Seq<u32>| self@.contains(c) == held.to_set().contains(c) by {
                if self@.contains(c) {
                    let i = choose|i: int|
                        0 <= i < self.entries@.len() && (#[trigger] self.entries@[i])@ == c;
                    assert(held[i] == c);
                }
                if held.contains(c) {
                    let i = choose|i: int| 0 <= i < held.len() && held[i] == c;
                    assert(self.entries@[i]@ == c);
                }
            }
            assert(self@ =~= held.to_set());
        }
        self.entries.len()
    }

    /// Whether `connection` has been inserted.
    pub fn contains(&self, connection: &[u32]) -> (found: bool)
        ensures
            found == self@.contains(connection@),
    {
        let mut i: usize = 0;
        while i < self.entries.len()
            invariant
                i <= self.entries@.len(),
                forall|k: int| 0 <= k < i ==> (#[trigger] self.entries@[k])@ != connection@,
            decreases self.entries@.len() - i,
        {
            if same_connection(self.entries[i].as_slice(), connection) {
                return true;
            }
            i += 1;
        }
        false
    }

    /// Whether any member of `class` has been inserted.
    pub fn contains_any(&self, class: &Vec<Vec<u32>>) -> (found: bool)
        ensures
            found == !is_new_class(rows(*class), self@),
    {
        let mut k: usize = 0;
        while k < class.len()
            invariant
                k <= class@.len(),
                is_new_class(rows(*class).take(k as int), self@),
            decreases class@.len() - k,
        {
            if self.contains(class[k].as_slice()) {
                assert(rows(*class)[k as int] == class@[k as int]@);
                return true;
            }
            k += 1;
            assert forall|m: int| 0 <= m < k implies !self@.contains(
                #[trigger] rows(*class).take(k as int)[m],
            ) by {
                if m < k - 1 {
                    assert(rows(*class).take(k as int)[m] == rows(*class).take(k - 1)[m]);
                }
            }
        }
        assert(rows(*class).take(k as int) =~= rows(*class));
        false
    }

    /// Inserts `connection`; the result tells whether it was new.
    pub fn insert(&mut self, connection: &[u32]) -> (fresh: bool)
        requires
            old(self).wf(),
        ensures
            final(self).wf(),
            final(self)@ == old(self)@.insert(connection@),
            fresh == !old(self)@.contains(connection@),
    {
        if self.contains(connection) {
            assert(self@ =~= self@.insert(connection@));
            return false;
        }
        let ghost before = self.entries@;
        self.entries.push(copy_connection(connection));
        assert forall|c: Seq<u32>| self@.contains(c) == old(self)@.insert(connection@).contains(
            c,
        ) by {
            if self@.contains(c) {
                let i = choose|i: int|
                    0 <= i < self.entries@.len() && (#[trigger] self.entries@[i])@ == c;
                if i < before.len() {
                    assert(before[i]@ == c);
                }
            }
            if old(self)@.contains(c) {
                let i = choose|i: int| 0 <= i < before.len() && (#[trigger] before[i])@ == c;
                assert(self.entries@[i]@ == c);
            }
            if c == connection@ {
                assert(self.entries@[before.len() as int]@ == c);
            }
        }
        assert(self@ =~= old(self)@.insert(connection@));
        true
    }

    /// Inserts every member of `class`.
    pub fn insert_all(&mut self, class: &Vec<Vec<u32>>)
        requires
            old(self).wf(),
        ensures
            final(self).wf(),
            final(self)@ == old(self)@.union(rows(*class).to_set()),
    {
        let mut k: usize = 0;
        while k < class.len()
            invariant
                k <= class@.len(),
                self.wf(),
                self@ == old(self)@.union(rows(*class).take(k as int).to_set()),
            decreases class@.len() - k,
        {
            let ghost so_far = self@;
            self.insert(class[k].as_slice());
            k += 1;
            assert(rows(*class).take(k as int) =~= rows(*class).take(k - 1).push(
                class@[k - 1]@,
            ));
            assert(self@ =~= old(self)@.union(rows(*class).take(k as int).to_set())) by {
                let shorter = rows(*class).take(k - 1);
                let longer = rows(*class).take(k as int);
                assert forall|c: Seq<u32>| longer.to_set().contains(c) == (shorter.to_set().contains(
                    c,
                ) || c == class@[k - 1]@) by {
                    if longer.contains(c) {
                        let m = choose|m: int| 0 <= m < longer.len() && longer[m] == c;
                        if m < k - 1 {
                            assert(shorter[m] == c);
                        }
                    }
                    if shorter.contains(c) {
                        let m = choose|m: int| 0 <= m < shorter.len() && shorter[m] == c;
                        assert(longer[m] == c);
                    }
                    if c == class@[k - 1]@ {
                        assert(longer[k - 1] == c);
                    }
                }
            }
        }
        assert(rows(*class).take(k as int) =~= rows(*class));
    }
}

} // verus!
