use zk_brainfuck::constraints::{
    boundary_check, check_tables, consistency_check, create_deselector, input_lookup_failure,
    instruction_gate_check, instruction_lookup_failure, memory_gate_check, memory_lookup_failure,
    output_lookup_failure, public_inputs, transition_check, ConstraintFailure,
};
use zk_brainfuck::field::Fe;
use zk_brainfuck::interpreter::Interpreter;
use zk_brainfuck::program::{ADD, GETCHAR, LB, PUTCHAR, RB, SHL, SHR, SUB};
use zk_brainfuck::table::{
    InputTableRow, InstructionTableRow, MemoryTableRow, OutputTableRow, ProcessTableRow, Tables,
};

fn fe(x: u64) -> Fe {
    Fe::from_u64(x)
}

fn neg(x: u64) -> Fe {
    fe(0).sub(&fe(x))
}

fn traced(code: &[u8], input: &[u64]) -> Tables {
    let mut interpreter = Interpreter::new(code.to_vec(), input.iter().map(|&v| fe(v)).collect());
    interpreter.run().expect("the program runs to its end");
    interpreter.tables().clone()
}

fn row(clk: u64, ip: usize, ci: u8, ni: u8, mp: usize, mv: u64) -> ProcessTableRow {
    let mv = fe(mv);
    ProcessTableRow { clk, ip, ci, ni, mp, mv, mvi: mv.invert_or_zero() }
}

#[test]
fn deselector_values() {
    let d = create_deselector(ADD, &fe(ADD as u64));
    assert_eq!(d, neg(4651200));
    for x in [ADD, SUB, SHL, SHR, GETCHAR, PUTCHAR, LB, RB] {
        for y in [ADD, SUB, SHL, SHR, GETCHAR, PUTCHAR, LB, RB] {
            let v = create_deselector(x, &fe(y as u64));
            assert_eq!(v.is_zero(), x != y, "deselector of {} at {}", x, y);
        }
    }
    assert_eq!(create_deselector(SUB, &fe(0)), neg(43 * 60 * 62 * 44 * 46 * 91 * 93));
}

#[test]
fn boundary_constraint() {
    assert!(boundary_check(&row(0, 0, ADD, 0, 0, 0)));
    assert!(!boundary_check(&row(1, 0, ADD, 0, 0, 0)));
    assert!(!boundary_check(&row(0, 1, ADD, 0, 0, 0)));
    assert!(!boundary_check(&row(0, 0, ADD, 0, 1, 0)));
    assert!(!boundary_check(&row(0, 0, ADD, 0, 0, 1)));
}

#[test]
fn consistency_constraint() {
    assert!(consistency_check(&row(0, 0, ADD, 0, 0, 0)));
    assert!(consistency_check(&row(0, 0, ADD, 0, 0, 5)));
    let mut bad = row(0, 0, ADD, 0, 0, 5);
    bad.mvi = fe(1);
    assert!(!consistency_check(&bad));
    let mut bad_zero = row(0, 0, ADD, 0, 0, 0);
    bad_zero.mvi = fe(3);
    assert!(!consistency_check(&bad_zero));
}

#[test]
fn transition_constraint() {
    assert!(transition_check(&row(0, 0, ADD, 0, 0, 0), &row(1, 1, ADD, 0, 0, 1)));
    assert!(!transition_check(&row(0, 0, ADD, 0, 0, 0), &row(1, 1, ADD, 0, 0, 2)));
    assert!(!transition_check(&row(0, 0, ADD, 0, 0, 0), &row(2, 1, ADD, 0, 0, 1)));
    assert!(transition_check(&row(3, 4, SUB, 0, 0, 1), &row(4, 5, ADD, 0, 0, 0)));
    assert!(transition_check(&row(3, 4, SHR, 0, 2, 1), &row(4, 5, ADD, 0, 3, 9)));
    assert!(!transition_check(&row(3, 4, SHR, 0, 2, 1), &row(4, 5, ADD, 0, 2, 9)));
    assert!(transition_check(&row(3, 4, SHL, 0, 2, 1), &row(4, 5, ADD, 0, 1, 0)));
    assert!(transition_check(&row(3, 4, GETCHAR, 0, 2, 1), &row(4, 5, ADD, 0, 2, 77)));
    assert!(transition_check(&row(3, 4, PUTCHAR, 0, 2, 1), &row(4, 5, ADD, 0, 2, 1)));
    assert!(!transition_check(&row(3, 4, PUTCHAR, 0, 2, 1), &row(4, 5, ADD, 0, 2, 2)));
    // `[` on zero jumps to its target, on nonzero falls through.
    assert!(transition_check(&row(3, 4, LB, 20, 2, 0), &row(4, 20, ADD, 0, 2, 0)));
    assert!(!transition_check(&row(3, 4, LB, 20, 2, 0), &row(4, 6, ADD, 0, 2, 0)));
    assert!(transition_check(&row(3, 4, LB, 20, 2, 7), &row(4, 6, ADD, 0, 2, 7)));
    assert!(!transition_check(&row(3, 4, LB, 20, 2, 7), &row(4, 20, ADD, 0, 2, 7)));
    // `]` on nonzero jumps back, on zero falls through.
    assert!(transition_check(&row(3, 9, RB, 2, 2, 7), &row(4, 2, ADD, 0, 2, 7)));
    assert!(transition_check(&row(3, 9, RB, 2, 2, 0), &row(4, 11, ADD, 0, 2, 0)));
    assert!(!transition_check(&row(3, 9, RB, 2, 2, 0), &row(4, 2, ADD, 0, 2, 0)));
}

#[test]
fn memory_constraint() {
    let m = |clk: u64, mp: usize, mv: u64| MemoryTableRow { clk, mp, mv: fe(mv) };
    assert!(memory_gate_check(&m(0, 0, 0), &m(1, 0, 1)));
    assert!(memory_gate_check(&m(0, 0, 5), &m(4, 0, 5)));
    assert!(!memory_gate_check(&m(0, 0, 5), &m(4, 0, 6)));
    assert!(memory_gate_check(&m(7, 0, 5), &m(2, 1, 0)));
    assert!(!memory_gate_check(&m(7, 0, 5), &m(2, 1, 3)));
    assert!(!memory_gate_check(&m(7, 0, 5), &m(2, 2, 0)));
}

#[test]
fn instruction_constraint() {
    let i = |ip: usize, ci: u8, ni: u8| InstructionTableRow { ip, ci, ni };
    assert!(instruction_gate_check(&i(3, ADD, 9), &i(3, ADD, 9)));
    assert!(instruction_gate_check(&i(3, ADD, 9), &i(4, SUB, 1)));
    assert!(!instruction_gate_check(&i(3, ADD, 9), &i(3, SUB, 9)));
    assert!(!instruction_gate_check(&i(3, ADD, 9), &i(3, ADD, 8)));
    assert!(!instruction_gate_check(&i(3, ADD, 9), &i(5, ADD, 9)));
}

#[test]
fn empty_program_satisfies_every_constraint() {
    let t = traced(b"", &[]);
    assert_eq!(check_tables(&t), Ok(()));
}

#[test]
fn flipped_memory_value_fails_the_memory_lookup() {
    let mut t = traced(b",.", &[97]);
    assert_eq!(memory_lookup_failure(&t), None);
    assert_eq!(output_lookup_failure(&t), None);
    let k = t.memory_table.iter().position(|r| r.clk == 1).unwrap();
    t.memory_table[k].mv = t.memory_table[k].mv.add(&fe(1));
    assert_eq!(memory_lookup_failure(&t), Some(k));
}

#[test]
fn each_broken_constraint_is_named() {
    let base = traced(b"", &[]);

    let mut t = base.clone();
    t.processor_table[0].clk = 1;
    assert_eq!(check_tables(&t), Err(ConstraintFailure::Boundary));

    let mut t = base.clone();
    t.processor_table[0].mvi = fe(2);
    assert_eq!(check_tables(&t), Err(ConstraintFailure::Consistency(0)));

    let t = traced(b"+-", &[]);
    assert_eq!(check_tables(&t), Err(ConstraintFailure::ProcessorTransition(1)));

    let t = traced(b"[+]", &[]);
    assert_eq!(check_tables(&t), Err(ConstraintFailure::InstructionTransition(1)));

    let mut t = base.clone();
    t.memory_table.push(MemoryTableRow { clk: 0, mp: 0, mv: fe(4) });
    assert_eq!(check_tables(&t), Err(ConstraintFailure::MemoryTransition(0)));

    let mut t = base.clone();
    t.memory_table[0].clk = 5;
    assert_eq!(check_tables(&t), Err(ConstraintFailure::MemoryLookup(0)));

    let mut t = base.clone();
    t.instruction_table[0].ni = 3;
    assert_eq!(instruction_lookup_failure(&t), Some(0));
    assert_eq!(check_tables(&t), Err(ConstraintFailure::InstructionLookup(0)));

    let t = traced(b",", &[5]);
    assert_eq!(input_lookup_failure(&t), Some(0));

    let mut t2 = base.clone();
    t2.input_table.push(InputTableRow { clk: 0, value: fe(0) });
    t2.input_table.push(InputTableRow { clk: 0, value: fe(0) });
    assert_eq!(check_tables(&t2), Err(ConstraintFailure::InputOrder(0)));
    let mut t3 = base.clone();
    t3.output_table.push(OutputTableRow { clk: 0, value: fe(0) });
    t3.output_table.push(OutputTableRow { clk: 0, value: fe(0) });
    assert_eq!(check_tables(&t3), Err(ConstraintFailure::OutputOrder(0)));
    let mut t4 = base.clone();
    t4.output_table.push(OutputTableRow { clk: 0, value: fe(9) });
    assert_eq!(check_tables(&t4), Err(ConstraintFailure::OutputLookup(0)));
}

#[test]
fn field_operations() {
    let one = fe(1);
    let minus_one = fe(0).sub(&one);
    let bytes = minus_one.to_bytes();
    let expected_low = [0x00u8, 0x00, 0x00, 0xf0, 0x93, 0xf5, 0xe1, 0x43];
    assert_eq!(&bytes[..8], &expected_low[..]);
    assert_eq!(bytes[31], 0x30);
    assert_eq!(minus_one.add(&one), fe(0));
    assert_eq!(fe(6).mul(&fe(7)), fe(42));
    assert_eq!(fe(6).add(&fe(7)), fe(13));
    assert_eq!(fe(6).sub(&fe(7)), minus_one);
    assert_eq!(minus_one.mul(&minus_one), one);
    let half = fe(2).invert_or_zero();
    assert_eq!(half.mul(&fe(2)), one);
    assert_ne!(half, fe(2));
    assert_eq!(fe(0).invert_or_zero(), fe(0));
    assert!(fe(0).is_zero());
    assert!(!fe(3).is_zero());
    assert!(fe(3).equals(&fe(3)));
    assert!(!fe(3).equals(&fe(4)));
    assert_eq!(Fe::zero(), fe(0));
    assert_eq!(Fe::one(), fe(1));
    assert_eq!(fe(258).to_bytes()[..2], [2u8, 1][..]);
}

#[test]
fn public_inputs_are_outputs_then_inputs() {
    let t = traced(b",.,+.", &[97, 5]);
    let (outputs, inputs) = public_inputs(&t);
    assert_eq!(outputs, vec![fe(97), fe(6)]);
    assert_eq!(inputs, vec![fe(97), fe(5)]);
    let (outputs, inputs) = public_inputs(&traced(b"+-", &[]));
    assert!(outputs.is_empty() && inputs.is_empty());
}

#[test]
fn circuit_test_run() {
    let code = vec![ADD, ADD, SHR, GETCHAR, SHL, LB, SHR, ADD, PUTCHAR, SHL, SUB, RB];
    let t = traced(&code, &[97]);
    let p = &t.processor_table;
    assert!(boundary_check(&p[0]));
    assert!(p.iter().all(consistency_check));
    assert!(p.windows(2).all(|w| transition_check(&w[0], &w[1])));
    assert!(t.memory_table.windows(2).all(|w| memory_gate_check(&w[0], &w[1])));
    assert_eq!(memory_lookup_failure(&t), None);
    assert_eq!(output_lookup_failure(&t), None);
    assert_eq!(instruction_lookup_failure(&t), None);
    // The address after `[` at 5 is its target byte, which has no row.
    assert_eq!(check_tables(&t), Err(ConstraintFailure::InstructionTransition(11)));
    assert_eq!((t.instruction_table[11].ip, t.instruction_table[12].ip), (5, 7));
    // At the clock of `,` the Processor row still holds the cell's old value.
    assert_eq!(input_lookup_failure(&t), Some(0));
    let (outputs, inputs) = public_inputs(&t);
    assert_eq!(outputs, vec![fe(98), fe(99)]);
    assert_eq!(inputs, vec![fe(97)]);
}

#[test]
fn target_bytes_get_no_static_row() {
    let mut code = vec![LB];
    code.extend(std::iter::repeat(SHR).take(40));
    code.push(RB);
    let t = traced(&code, &[]);
    assert_eq!(zk_brainfuck::program::compile_code(&code)[1], GETCHAR);
    assert!(t.instruction_table.iter().all(|r| r.ip != 1 && r.ip != 43));
    assert_eq!(t.instruction_table.iter().filter(|r| r.ip == 0).count(), 2);
    assert_eq!(t.instruction_table.len(), 2 + 42);
}
