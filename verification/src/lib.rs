//! Enumeration of the ways to pair up the ports on a tile's boundary, keeping
//! one pairing for each class of pairings that a symmetry makes alike.

pub mod enumerate;
pub mod laws;
pub mod ledger;
pub mod matching;
pub mod policy;
pub mod rotation;
pub mod search;

pub use enumerate::{
    all_matchings, branches, classes, completions, connections, connections_helper, ledger_after,
    representatives, unassigned, valid_arity, ConnectionError,
};
pub use ledger::{is_new_class, same_connection, Ledger};
pub use matching::{decided_below, filled, is_matching, is_partial, pair};
pub use policy::{
    copy_connection, equivalent_rotation_180, rotate_180, rows, EquivalencePolicy, Identity,
    Rotation180,
};
