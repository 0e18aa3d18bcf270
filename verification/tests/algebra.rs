use cx_synth::a_star::AStarValue;
use cx_synth::cx::CX;
use cx_synth::cx_circuit::{eye, CXCircuit, CXCircuit16};
use cx_synth::qubit_set::QubitSet;
use cx_synth::rows::{column_of, differing_rows, parity, products_row, same_rows};

fn sample() -> CXCircuit16 {
    CXCircuit16::from_cxs(&vec![(0, 1), (1, 2), (4, 5), (7, 3), (3, 15), (15, 0)])
}

fn other() -> CXCircuit16 {
    CXCircuit16::from_cxs(&vec![(2, 1), (9, 8), (8, 2), (1, 14)])
}

#[test]
fn identity_rows() {
    let id = eye();
    for i in 0..16 {
        assert_eq!(id[i], 1u16 << i);
    }
    assert_eq!(CXCircuit16::new().rows(), id);
}

#[test]
fn cx_adds_control_row_to_target_row() {
    let mut c = CXCircuit16::from_mat([3, 5, 9, 17, 33, 65, 129, 257, 513, 1025, 2049, 4097, 8193, 16385, 32769, 7]);
    c.add_cx(2, 5);
    let rows = c.rows();
    assert_eq!(rows[5], 65 ^ 9);
    assert_eq!(rows[2], 9);
}

#[test]
fn cx_twice_is_identity_operation() {
    for (ctrl, tgt) in [(0usize, 1usize), (5, 3), (15, 0), (7, 8)] {
        let mut c = sample();
        c.add_cx(ctrl, tgt);
        assert_ne!(c, sample());
        c.add_cx(ctrl, tgt);
        assert_eq!(c, sample());
    }
}

#[test]
fn transpose_twice_is_identity() {
    assert_eq!(sample().transpose().transpose(), sample());
    assert_eq!(other().transpose().transpose(), other());
}

#[test]
fn mult_is_mult_transpose_of_transpose() {
    let a = sample();
    let b = other();
    assert_eq!(a.mult(&b), a.mult_transpose(&b.transpose()));
}

#[test]
fn mult_by_identity() {
    let a = sample();
    assert_eq!(a.mult(&CXCircuit16::new()), a);
    assert_eq!(CXCircuit16::new().mult(&a), a);
}

#[test]
fn mult_composes_gates() {
    // Row operations multiply from the left: the circuit of two gates is the
    // product of the second gate's matrix with the first gate's.
    let first = CXCircuit16::from_cxs(&vec![(0, 1)]);
    let second = CXCircuit16::from_cxs(&vec![(1, 2)]);
    let both = CXCircuit16::from_cxs(&vec![(0, 1), (1, 2)]);
    assert_eq!(second.mult(&first), both);
}

#[test]
fn mult_transpose_exact_rows() {
    let a = CXCircuit16::from_cxs(&vec![(0, 1)]);
    let b = CXCircuit16::from_cxs(&vec![(1, 0)]);
    // Row 0 of a is 0b01, row 1 is 0b11; row 0 of b is 0b11, row 1 is 0b10.
    let product = a.mult_transpose(&b).rows();
    assert_eq!(product[0], 0b01);
    assert_eq!(product[1], 0b10);
    assert_eq!(product[2], 0b100);
}

#[test]
fn parity_counts_bits() {
    assert!(!parity(0));
    assert!(parity(1));
    assert!(!parity(0b11));
    assert!(parity(0b0111));
    assert!(!parity(0xffff));
    assert!(parity(0x8000));
    for x in 0..=u16::MAX {
        assert_eq!(parity(x), x.count_ones() % 2 == 1);
    }
}

#[test]
fn products_row_and_column() {
    let rows = sample().rows();
    let x = 0b1011u16;
    let mut expected = 0u16;
    for j in 0..16 {
        if (x & rows[j]).count_ones() % 2 == 1 {
            expected |= 1 << j;
        }
    }
    assert_eq!(products_row(x, &rows), expected);
    for i in 0..16 {
        let mut col = 0u16;
        for j in 0..16 {
            if rows[j] & (1 << i) != 0 {
                col |= 1 << j;
            }
        }
        assert_eq!(column_of(&rows, i), col);
    }
}

#[test]
fn dist_counts_differing_rows() {
    let id = CXCircuit16::new();
    assert_eq!(id.dist(&id), 0);
    let one = CXCircuit16::from_cxs(&vec![(0, 1)]);
    assert_eq!(id.dist(&one), 1);
    let three = CXCircuit16::from_cxs(&vec![(0, 1), (2, 3), (1, 4)]);
    assert_eq!(id.dist(&three), 3);
    assert_eq!(three.dist(&id), 3);
    assert_eq!(differing_rows(&[1, 2, 3], &[1, 5, 3]), 1);
    assert!(same_rows(&[1, 2, 3], &[1, 2, 3]));
    assert!(!same_rows(&[1, 2, 3], &[1, 2]));
    assert!(!same_rows(&[1, 2, 3], &[1, 2, 4]));
}

#[test]
fn is_complete_compares_one_row() {
    let id = CXCircuit16::new();
    let one = CXCircuit16::from_cxs(&vec![(0, 1)]);
    assert!(!one.is_complete(1, &id));
    assert!(one.is_complete(0, &id));
    assert!(one.is_complete(15, &id));
}

#[test]
fn value_cx_is_add_cx() {
    let one = CXCircuit16::from_cxs(&vec![(3, 9)]);
    assert_eq!(AStarValue::cx(&CXCircuit16::new(), 3, 9), one);
}

#[test]
fn merge_takes_listed_rows_from_other() {
    let a = sample();
    let b = other();
    let mut used = QubitSet::empty();
    used.insert(1);
    used.insert(14);
    let merged = a.merge(&b, &used);
    for q in 0..16 {
        if q == 1 || q == 14 {
            assert_eq!(merged.rows()[q], b.rows()[q]);
        } else {
            assert_eq!(merged.rows()[q], a.rows()[q]);
        }
    }
    assert_eq!(a.merge(&b, &QubitSet::empty()), a);
}

#[test]
fn encode_is_the_rows() {
    assert_eq!(sample().encode(), sample().rows().to_vec());
}

#[test]
fn hash_is_the_low_half_of_the_fx_hash() {
    // The Fx hash of the four packed words of the identity and of another
    // circuit, computed by hand from the algorithm.
    assert_eq!(CXCircuit::hash(&CXCircuit16::new()), 3729127002);
    let c = CXCircuit16::from_cxs(&vec![(0, 1), (1, 2), (4, 5)]);
    assert_eq!(CXCircuit::hash(&c), 1012304734);
}

#[test]
fn same_tells_circuits_apart() {
    assert!(sample().same(&sample()));
    assert!(!sample().same(&other()));
}

#[test]
fn gate_from_pair() {
    assert_eq!(CX::from((3, 7)), CX { ctrl: 3, tgt: 7 });
    assert_eq!(CX::from((256 + 3, 7)), CX { ctrl: 3, tgt: 7 });
    assert!(CX { ctrl: 3, tgt: 7 }.is_valid());
    assert!(!CX { ctrl: 3, tgt: 3 }.is_valid());
    assert!(!CX { ctrl: 16, tgt: 3 }.is_valid());
    assert!(!CX { ctrl: 0, tgt: 16 }.is_valid());
}

#[test]
fn qubit_set_operations() {
    let mut a = QubitSet::empty();
    assert!(a.is_empty());
    a.insert(3);
    a.insert(15);
    a.insert(3);
    assert!(!a.is_empty());
    assert!(a.contains(3) && a.contains(15));
    assert!(!a.contains(0) && !a.contains(16) && !a.contains(255));
    assert_eq!(a.to_vec(), vec![3, 15]);
    let mut b = QubitSet::empty();
    b.insert(0);
    b.insert(3);
    assert_eq!(a.union(&b).to_vec(), vec![0, 3, 15]);
    assert_eq!(a.intersection(&b).to_vec(), vec![3]);
    assert!(QubitSet::empty().intersection(&b).is_empty());
}
