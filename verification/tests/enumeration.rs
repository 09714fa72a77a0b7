use tile_connections::{
    connections, connections_helper, copy_connection, equivalent_rotation_180, same_connection,
    ConnectionError, EquivalencePolicy, Identity, Ledger, Rotation180,
};

fn is_pairing(c: &[u32]) -> bool {
    (0..c.len()).all(|i| {
        let j = c[i] as usize;
        j < c.len() && j != i && c[j] as usize == i
    })
}

fn double_factorial_below(n: usize) -> usize {
    let mut product = 1;
    let mut k = 1;
    while k < n {
        product *= k;
        k += 2;
    }
    product
}

fn every_pairing(n: usize) -> Vec<Vec<u32>> {
    fn go(arr: &mut Vec<Option<u32>>, out: &mut Vec<Vec<u32>>) {
        match arr.iter().position(|slot| slot.is_none()) {
            None => out.push(arr.iter().map(|slot| slot.unwrap()).collect()),
            Some(low) => {
                for high in (low + 1)..arr.len() {
                    if arr[high].is_none() {
                        arr[low] = Some(high as u32);
                        arr[high] = Some(low as u32);
                        go(arr, out);
                        arr[low] = None;
                        arr[high] = None;
                    }
                }
            }
        }
    }
    let mut out = Vec::new();
    go(&mut vec![None; n], &mut out);
    out
}

#[test]
fn four_ports_identity_gives_three_in_discovery_order() {
    let found = connections(4, &Identity).unwrap();
    assert_eq!(found, vec![vec![1, 0, 3, 2], vec![2, 3, 0, 1], vec![3, 2, 1, 0]]);
}

#[test]
fn four_ports_half_turn_keeps_all_three() {
    // On four ports every connection is its own half turn.
    let found = connections(4, &Rotation180).unwrap();
    assert_eq!(found, vec![vec![1, 0, 3, 2], vec![2, 3, 0, 1], vec![3, 2, 1, 0]]);
}

#[test]
fn half_turn_of_four_port_connections() {
    assert_eq!(
        equivalent_rotation_180(&[1, 0, 3, 2]),
        vec![vec![1, 0, 3, 2], vec![1, 0, 3, 2]]
    );
    assert_eq!(
        equivalent_rotation_180(&[2, 3, 0, 1]),
        vec![vec![2, 3, 0, 1], vec![2, 3, 0, 1]]
    );
    assert_eq!(
        equivalent_rotation_180(&[3, 2, 1, 0]),
        vec![vec![3, 2, 1, 0], vec![3, 2, 1, 0]]
    );
}

#[test]
fn half_turn_of_a_six_port_connection() {
    // Ports 0-1, 2-5, 3-4 on a ring of six; half a ring is three ports,
    // so the turned connection joins 3-4, 5-2, 0-1.
    let class = equivalent_rotation_180(&[1, 0, 5, 4, 3, 2]);
    assert_eq!(class, vec![vec![1, 0, 5, 4, 3, 2], vec![1, 0, 5, 4, 3, 2]]);
    // Ports 0-2, 1-3, 4-5 turn into 3-5, 4-0, 1-2.
    let class = equivalent_rotation_180(&[2, 3, 0, 1, 5, 4]);
    assert_eq!(class, vec![vec![2, 3, 0, 1, 5, 4], vec![4, 2, 1, 5, 0, 3]]);
}

#[test]
fn half_turn_of_an_eight_port_connection() {
    // Ports 0-1, 2-3, 4-7, 5-6; turned by four ports: 4-5, 6-7, 0-3, 1-2.
    let class = equivalent_rotation_180(&[1, 0, 3, 2, 7, 6, 5, 4]);
    assert_eq!(
        class,
        vec![vec![1, 0, 3, 2, 7, 6, 5, 4], vec![3, 2, 1, 0, 5, 4, 7, 6]]
    );
}

#[test]
fn half_turn_of_nothing() {
    assert_eq!(equivalent_rotation_180(&[]), vec![Vec::<u32>::new(), Vec::new()]);
}

#[test]
fn half_turn_twice_is_the_connection() {
    for c in every_pairing(8) {
        let once = equivalent_rotation_180(&c).pop().unwrap();
        let twice = equivalent_rotation_180(&once).pop().unwrap();
        assert_eq!(twice, c);
        assert!(is_pairing(&once));
    }
}

#[test]
fn eight_ports_half_turn_gives_sixty_five() {
    // Of the 105 connections, 25 are their own half turn; the other 80 come
    // in pairs.
    let found = connections(8, &Rotation180).unwrap();
    assert_eq!(found.len(), 65);
    assert_eq!(found[0], vec![1, 0, 3, 2, 5, 4, 7, 6]);
}

#[test]
fn zero_ports_are_refused() {
    assert_eq!(connections(0, &Identity), Err(ConnectionError::InvalidArity));
    assert_eq!(connections(0, &Rotation180), Err(ConnectionError::InvalidArity));
}

#[test]
fn odd_ports_are_refused() {
    assert_eq!(connections(1, &Identity), Err(ConnectionError::InvalidArity));
    assert_eq!(connections(3, &Rotation180), Err(ConnectionError::InvalidArity));
    assert_eq!(connections(7, &Identity), Err(ConnectionError::InvalidArity));
}

#[test]
fn two_ports_have_one_connection() {
    assert_eq!(connections(2, &Identity), Ok(vec![vec![1, 0]]));
    assert_eq!(connections(2, &Rotation180), Ok(vec![vec![1, 0]]));
}

#[test]
fn identity_counts_are_double_factorials() {
    let expected = [(2usize, 1usize), (4, 3), (6, 15), (8, 105), (10, 945)];
    for (n, count) in expected {
        let found = connections(n, &Identity).unwrap();
        assert_eq!(found.len(), count);
        assert_eq!(found.len(), double_factorial_below(n));
        for c in &found {
            assert_eq!(c.len(), n);
            assert!(is_pairing(c));
        }
        for i in 0..found.len() {
            for j in (i + 1)..found.len() {
                assert_ne!(found[i], found[j]);
            }
        }
    }
}

#[test]
fn identity_finds_connections_in_increasing_order() {
    let found = connections(6, &Identity).unwrap();
    assert_eq!(found, every_pairing(6));
    for pair in found.windows(2) {
        assert!(pair[0] < pair[1]);
    }
    assert_eq!(found[0], vec![1, 0, 3, 2, 5, 4]);
    assert_eq!(found[14], vec![5, 4, 3, 2, 1, 0]);
}

#[test]
fn representatives_are_pairwise_inequivalent() {
    let policy = Rotation180;
    for n in [2usize, 4, 6, 8] {
        let found = connections(n, &policy).unwrap();
        for i in 0..found.len() {
            let class = policy.equivalents(&found[i]);
            for j in 0..found.len() {
                if i != j {
                    assert!(!class.contains(&found[j]));
                }
            }
        }
    }
}

#[test]
fn every_connection_has_exactly_one_representative() {
    let policy = Rotation180;
    for n in [2usize, 4, 6, 8] {
        let found = connections(n, &policy).unwrap();
        for c in every_pairing(n) {
            let class = policy.equivalents(&c);
            let hits = found.iter().filter(|r| class.contains(*r)).count();
            assert_eq!(hits, 1);
        }
    }
}

#[test]
fn six_ports_half_turn_gives_eleven() {
    // Fifteen connections, seven of them their own half turn.
    let found = connections(6, &Rotation180).unwrap();
    assert_eq!(found.len(), 11);
}

#[test]
fn enumeration_is_repeatable() {
    assert_eq!(connections(8, &Rotation180), connections(8, &Rotation180));
    assert_eq!(connections(6, &Identity), connections(6, &Identity));
}

#[test]
fn representative_is_the_first_of_its_class() {
    let policy = Rotation180;
    let found = connections(8, &policy).unwrap();
    let all = every_pairing(8);
    for r in &found {
        let at = all.iter().position(|c| c == r).unwrap();
        for e in policy.equivalents(r) {
            let other = all.iter().position(|c| *c == e).unwrap();
            assert!(at <= other);
        }
    }
}

#[test]
fn identity_policy_returns_the_connection_alone() {
    assert_eq!(Identity.equivalents(&[1, 0, 3, 2]), vec![vec![1, 0, 3, 2]]);
    assert_eq!(Rotation180.equivalents(&[2, 3, 0, 1]), vec![vec![2, 3, 0, 1], vec![2, 3, 0, 1]]);
}

#[test]
fn ledger_remembers_what_was_inserted() {
    let mut ledger = Ledger::new();
    assert!(!ledger.contains(&[1, 0]));
    assert!(ledger.insert(&[1, 0]));
    assert!(ledger.contains(&[1, 0]));
    assert!(!ledger.insert(&[1, 0]));
    assert!(!ledger.contains(&[1, 0, 3, 2]));
    let class = vec![vec![2, 3, 0, 1], vec![3, 2, 1, 0]];
    assert!(!ledger.contains_any(&class));
    ledger.insert_all(&class);
    assert!(ledger.contains(&[2, 3, 0, 1]));
    assert!(ledger.contains(&[3, 2, 1, 0]));
    assert!(ledger.contains(&[1, 0]));
    assert!(ledger.contains_any(&vec![vec![0, 1], vec![3, 2, 1, 0]]));
    assert!(!ledger.contains_any(&vec![vec![0, 1], vec![1, 0, 3, 2]]));
    assert!(!ledger.contains_any(&Vec::new()));
}

#[test]
fn ledger_counts_each_connection_once() {
    let mut ledger = Ledger::new();
    assert_eq!(ledger.len(), 0);
    ledger.insert(&[1, 0]);
    ledger.insert(&[1, 0]);
    assert_eq!(ledger.len(), 1);
    ledger.insert_all(&vec![vec![1, 0, 3, 2], vec![1, 0, 3, 2], vec![1, 0]]);
    assert_eq!(ledger.len(), 2);
}

#[test]
fn more_ports_than_an_index_can_name_are_refused() {
    if let Some(n) = (u32::MAX as usize).checked_add(1) {
        assert_eq!(connections(n, &Identity), Err(ConnectionError::InvalidArity));
    }
}

#[test]
fn connections_compare_port_by_port() {
    assert!(same_connection(&[1, 0, 3, 2], &[1, 0, 3, 2]));
    assert!(!same_connection(&[1, 0, 3, 2], &[1, 0, 2, 3]));
    assert!(!same_connection(&[1, 0], &[1, 0, 3, 2]));
    assert!(same_connection(&[], &[]));
    assert_eq!(copy_connection(&[3, 2, 1, 0]), vec![3, 2, 1, 0]);
}

#[test]
fn helper_continues_from_a_partial_assignment() {
    // Ports 0 and 3 are joined already; 1 and 2 are left for each other.
    let mut arr = vec![Some(3), None, None, Some(0)];
    let mut ledger = Ledger::new();
    let found = connections_helper(&mut arr, 1, &Identity, &mut ledger);
    assert_eq!(found, vec![vec![3, 2, 1, 0]]);
    assert_eq!(arr, vec![Some(3), None, None, Some(0)]);
    assert!(ledger.contains(&[3, 2, 1, 0]));
    // What the ledger holds is not kept again.
    let again = connections_helper(&mut arr, 1, &Identity, &mut ledger);
    assert_eq!(again, Vec::<Vec<u32>>::new());
    assert_eq!(ledger.len(), 1);
}
