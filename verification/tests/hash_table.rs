use cx_synth::cx_circuit::{CXCircuit, CXCircuit16};
use cx_synth::hash_table::HashTable;

#[test]
fn test_intersection() {
    let mut a = HashTable::<CXCircuit16, 10>::new();
    let mut b = HashTable::<CXCircuit16, 10>::new();
    let c = CXCircuit16::from_cxs(&vec![(0, 1), (1, 2), (4, 5)]);
    a.insert(CXCircuit16::new(), (0, 0));
    b.insert(c, (0, 0));
    assert!(a.intersection(&b).is_empty());
    b.insert(CXCircuit16::new(), (0, 0));
    assert_eq!(a.intersection(&b), vec![CXCircuit16::new()]);
    a.insert(c, (0, 0));
    assert_eq!(a.intersection(&b), vec![CXCircuit16::new(), c]);
}

#[test]
fn tables_share_no_more_than_either_stored() {
    let mut a = HashTable::<CXCircuit16, 64>::new();
    let mut b = HashTable::<CXCircuit16, 64>::new();
    for ctrl in 0..6 {
        a.insert(CXCircuit16::from_cxs(&vec![(ctrl, ctrl + 1)]), (0, 0));
    }
    for ctrl in 3..5 {
        b.insert(CXCircuit16::from_cxs(&vec![(ctrl, ctrl + 1)]), (0, 0));
    }
    let common = a.intersection(&b);
    assert!(a.n_inserts <= 6 && b.n_inserts <= 2);
    assert!(common.len() <= a.n_inserts && common.len() <= b.n_inserts);
    assert_eq!((a.inserts(), b.inserts()), (a.n_inserts, b.n_inserts));
    assert_eq!(a.collisions(), a.n_collisions);
    assert_eq!(common.len(), b.n_inserts);
}
