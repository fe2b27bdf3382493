use zk_brainfuck::field::Fe;
use zk_brainfuck::less_than::{bool_check, expr_from_bytes, lt_gate_check, lt_witness, LtWitness, RANGE};

fn fe(x: u64) -> Fe {
    Fe::from_u64(x)
}

#[test]
fn bytes_combine_little_endian() {
    assert_eq!(expr_from_bytes(&[fe(1), fe(2), fe(3), fe(4)]), fe(0x04030201));
    assert_eq!(expr_from_bytes(&[]), fe(0));
    assert_eq!(expr_from_bytes(&[fe(255), fe(255)]), fe(65535));
}

#[test]
fn bool_check_vanishes_on_bits() {
    assert!(bool_check(&fe(0)).is_zero());
    assert!(bool_check(&fe(1)).is_zero());
    assert_eq!(bool_check(&fe(2)), fe(2));
    assert_eq!(bool_check(&fe(3)), fe(6));
}

#[test]
fn honest_witness_for_less() {
    let w = lt_witness(3, 5);
    assert_eq!(w, LtWitness { lt: true, diff: [0xfe, 0xff, 0xff, 0xff] });
    assert!(lt_gate_check(&fe(3), &fe(5), &w));
}

#[test]
fn honest_witness_for_not_less() {
    let w = lt_witness(5, 3);
    assert_eq!(w, LtWitness { lt: false, diff: [2, 0, 0, 0] });
    assert!(lt_gate_check(&fe(5), &fe(3), &w));
    let w = lt_witness(7, 7);
    assert_eq!(w, LtWitness { lt: false, diff: [0, 0, 0, 0] });
    assert!(lt_gate_check(&fe(7), &fe(7), &w));
    let w = lt_witness(0x0102_0304, 0);
    assert_eq!(w.diff, [4, 3, 2, 1]);
}

#[test]
fn forged_witness_fails() {
    let honest = lt_witness(3, 5);
    let flipped = LtWitness { lt: false, ..honest };
    assert!(!lt_gate_check(&fe(3), &fe(5), &flipped));
    let wrong_limb = LtWitness { diff: [0xfd, 0xff, 0xff, 0xff], ..honest };
    assert!(!lt_gate_check(&fe(3), &fe(5), &wrong_limb));
    assert_eq!(RANGE, 1u64 << 32);
}
