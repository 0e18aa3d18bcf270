use cx_synth::cx_circuit::{eye, CXCircuit, CXCircuit16};

fn sum_pow_two(vals: &[u16]) -> u16 {
    let mut sum = 0;
    for val in vals {
        sum += 1 << val;
    }
    sum
}

#[test]
fn test_cx_16() {
    let mut cx = CXCircuit16::new();
    cx.add_cx(0, 1);
    cx.add_cx(3, 2);
    cx.add_cx(2, 6);

    let mut res = eye();
    res[1] = sum_pow_two(&[0, 1]);
    res[2] = sum_pow_two(&[3, 2]);
    res[6] = sum_pow_two(&[2, 3, 6]);
    assert_eq!(cx.rows(), res);
}

#[test]
fn test_cx_cx() {
    let mut cx_cx = CXCircuit16::new();
    cx_cx.add_cx(0, 1);
    cx_cx.add_cx(0, 1);
    assert_eq!(cx_cx.rows(), eye());
}

#[test]
fn transpose_16() {
    let mat = [
        0b0000010000000001,
        0b0000100000000010,
        0b0001000000000100,
        0b0010000000001000,
        0b0100000000010000,
        0b1000000000100000,
        0b0000000001000000,
        0b0000000010000000,
        0b0000000100000000,
        0b0000001000000000,
        0b0000010000000000,
        0b0000100000000000,
        0b0001000000000000,
        0b0010000000001000,
        0b0100000000000000,
        0b1000000000000000,
    ];
    let mat_t = [
        0b0000000000000001,
        0b0000000000000010,
        0b0000000000000100,
        0b0010000000001000,
        0b0000000000010000,
        0b0000000000100000,
        0b0000000001000000,
        0b0000000010000000,
        0b0000000100000000,
        0b0000001000000000,
        0b0000010000000001,
        0b0000100000000010,
        0b0001000000000100,
        0b0010000000001000,
        0b0100000000010000,
        0b1000000000100000,
    ];
    let cx = CXCircuit16::from_mat(mat);
    let t = cx.transpose();
    assert_eq!(t, CXCircuit16::from_mat(mat_t));
}
