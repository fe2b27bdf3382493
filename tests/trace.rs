use zk_brainfuck::field::Fe;
use zk_brainfuck::interpreter::{Interpreter, TraceError, TAPE_SIZE};
use zk_brainfuck::program::{
    compile_code, is_insturction, ADD, GETCHAR, LB, PUTCHAR, RB, SHL, SHR, SUB,
};
use zk_brainfuck::table::{MemoryTableRow, Tables};

fn fe(x: u64) -> Fe {
    Fe::from_u64(x)
}

fn traced(code: &[u8], input: &[u64]) -> Tables {
    let mut interpreter = Interpreter::new(code.to_vec(), input.iter().map(|&v| fe(v)).collect());
    interpreter.run().expect("the program runs to its end");
    interpreter.tables().clone()
}

fn run_error(code: &[u8], input: &[u64]) -> TraceError {
    let mut interpreter = Interpreter::new(code.to_vec(), input.iter().map(|&v| fe(v)).collect());
    interpreter.run().expect_err("the run fails")
}

#[test]
fn interpreter_test_run() {
    let code = vec![ADD, ADD, SHR, GETCHAR, SHL, LB, SHR, ADD, PUTCHAR, SHL, SUB, RB];
    let input = vec![Fe::from_u64(97)];
    let mut interpreter = Interpreter::new(code, input);
    assert_eq!(interpreter.run(), Ok(()));
}

#[test]
fn opcode_bytes() {
    assert_eq!((ADD, SUB, SHL, SHR), (0x2B, 0x2D, 0x3C, 0x3E));
    assert_eq!((GETCHAR, PUTCHAR, LB, RB), (0x2C, 0x2E, 0x5B, 0x5D));
    for b in [ADD, SUB, SHL, SHR, GETCHAR, PUTCHAR, LB, RB] {
        assert!(is_insturction(b));
    }
    assert!(!is_insturction(b'a'));
    assert!(!is_insturction(0));
    assert!(!is_insturction(b' '));
}

#[test]
fn compile_drops_other_bytes() {
    assert_eq!(compile_code(b"+ +\n>a-"), vec![ADD, ADD, SHR, SUB]);
    assert_eq!(compile_code(b""), Vec::<u8>::new());
    assert_eq!(compile_code(b"hello"), Vec::<u8>::new());
}

#[test]
fn compile_writes_jump_targets() {
    assert_eq!(
        compile_code(b"+[>+<-]+"),
        vec![ADD, LB, 9, SHR, ADD, SHL, SUB, RB, 3, ADD]
    );
    assert_eq!(
        compile_code(b"+,>+[>+[+]>-]"),
        vec![ADD, GETCHAR, SHR, ADD, LB, 17, SHR, ADD, LB, 13, ADD, RB, 10, SHR, SUB, RB, 6]
    );
}

#[test]
fn compile_unmatched_brackets_get_zero() {
    assert_eq!(compile_code(b"[+"), vec![LB, 0, ADD]);
    assert_eq!(compile_code(b"+]"), vec![ADD, RB, 0]);
    assert_eq!(compile_code(b"[[]"), vec![LB, 0, LB, 6, RB, 4]);
}

#[test]
fn compile_targets_wrap_at_a_byte() {
    let mut code = vec![LB];
    code.extend(std::iter::repeat(SHR).take(300));
    code.push(RB);
    let program = compile_code(&code);
    assert_eq!(program.len(), 304);
    assert_eq!(program[1], ((302 + 2) % 256) as u8);
    assert_eq!(program[303], 2);
}

#[test]
fn echo_single_byte() {
    assert_eq!(compile_code(b",."), vec![0x2C, 0x2E]);
    let t = traced(b",.", &[97]);
    assert_eq!(t.output_table.len(), 1);
    assert_eq!(t.output_table[0].clk, 1);
    assert_eq!(t.output_table[0].value, fe(97));
    assert_eq!(t.processor_table.len(), 3);
    assert_eq!(t.input_table.len(), 1);
    assert_eq!(t.input_table[0].clk, 0);
    assert_eq!(t.input_table[0].value, fe(97));
}

#[test]
fn increment_and_print() {
    let code = b"++>,<[>+.<-]";
    assert_eq!(
        compile_code(code),
        vec![ADD, ADD, SHR, GETCHAR, SHL, LB, 14, SHR, ADD, PUTCHAR, SHL, SUB, RB, 7]
    );
    let t = traced(code, &[97]);
    let outputs: Vec<(u64, Fe)> = t.output_table.iter().map(|r| (r.clk, r.value)).collect();
    assert_eq!(outputs, vec![(8, fe(98)), (14, fe(99))]);
    assert_eq!(t.processor_table.len(), 19);
    let last = t.processor_table[18];
    assert_eq!((last.clk, last.ip, last.ci, last.ni), (18, 14, 0, 0));
}

#[test]
fn empty_input_and_output() {
    let t = traced(b"+-", &[]);
    assert_eq!(t.processor_table.len(), 3);
    assert!(t.input_table.is_empty());
    assert!(t.output_table.is_empty());
    assert_eq!(t.processor_table[0].ci, ADD);
    assert_eq!(t.processor_table[1].ci, SUB);
    assert_eq!(t.processor_table[1].mv, fe(1));
    assert_eq!(t.processor_table[2].ci, 0);
}

#[test]
fn loop_that_never_enters() {
    let t = traced(b"[+]", &[]);
    assert_eq!(t.processor_table.len(), 2);
    assert_eq!(t.processor_table[0].ci, LB);
    assert_eq!(t.processor_table[0].ni, 5);
    assert_eq!(t.processor_table[1].ip, 5);
    assert_eq!(t.processor_table[1].ci, 0);
    assert!(t.processor_table.iter().all(|r| r.ci != ADD && r.ci != RB));
}

#[test]
fn nested_loops() {
    let code = b"++[>+[-]<-]";
    let program = compile_code(code);
    assert_eq!(
        program,
        vec![ADD, ADD, LB, 15, SHR, ADD, LB, 11, SUB, RB, 8, SHL, SUB, RB, 4]
    );
    let t = traced(code, &[]);
    assert_eq!(t.processor_table.len(), 20);
    let last = t.processor_table[19];
    assert_eq!((last.clk, last.ip, last.mp, last.mv), (19, 15, 0, fe(0)));
    for mp in [0usize, 1] {
        let cell: Vec<&MemoryTableRow> = t.memory_table.iter().filter(|r| r.mp == mp).collect();
        assert_eq!(cell.last().unwrap().mv, fe(0));
    }
    assert_eq!(traced(code, &[]), t);
}

#[test]
fn runs_are_deterministic() {
    let a = traced(b"++>,<[>+.<-]", &[97]);
    let b = traced(b"++>,<[>+.<-]", &[97]);
    assert_eq!(a, b);
    let mut interpreter = Interpreter::new(b",.".to_vec(), vec![fe(5)]);
    interpreter.run().unwrap();
    let first = interpreter.tables().clone();
    interpreter.run().unwrap();
    assert_eq!(interpreter.tables(), &first);
}

#[test]
fn first_row_starts_at_zero() {
    for code in [&b"+"[..], b"", b">>+<", b"[-]"] {
        let t = traced(code, &[]);
        let r = t.processor_table[0];
        assert_eq!((r.clk, r.ip, r.mp, r.mv), (0, 0, 0, fe(0)));
    }
}

#[test]
fn clocks_step_by_one() {
    let t = traced(b"++>,<[>+.<-]", &[3]);
    for w in t.processor_table.windows(2) {
        assert_eq!(w[1].clk, w[0].clk + 1);
    }
}

#[test]
fn memory_table_is_sorted_projection() {
    let t = traced(b"+>++<.>.", &[]);
    let mut projected: Vec<(usize, u64, Fe)> =
        t.processor_table.iter().map(|r| (r.mp, r.clk, r.mv)).collect();
    projected.sort_by_key(|x| (x.0, x.1));
    let memory: Vec<(usize, u64, Fe)> = t.memory_table.iter().map(|r| (r.mp, r.clk, r.mv)).collect();
    assert_eq!(memory, projected);
}

#[test]
fn instruction_table_holds_steps_and_program() {
    let code = b"+[-]";
    let program = compile_code(code);
    let t = traced(code, &[]);
    let mut expected: Vec<(usize, u8, u8)> =
        t.processor_table.iter().map(|r| (r.ip, r.ci, r.ni)).collect();
    for (i, &b) in program.iter().enumerate() {
        if is_insturction(b) {
            expected.push((i, b, program.get(i + 1).copied().unwrap_or(0)));
        }
    }
    expected.sort_by_key(|x| x.0);
    let table: Vec<(usize, u8, u8)> =
        t.instruction_table.iter().map(|r| (r.ip, r.ci, r.ni)).collect();
    assert_eq!(table, expected);
    let statics: Vec<usize> = table.iter().filter(|r| r.1 == LB).map(|r| r.0).collect();
    assert!(statics.iter().all(|&ip| ip == 1));
}

#[test]
fn io_tables_follow_the_steps() {
    let t = traced(b",.,.,+.", &[7, 8, 9]);
    let gets: Vec<u64> = t.processor_table.iter().filter(|r| r.ci == GETCHAR).map(|r| r.clk).collect();
    let inputs: Vec<(u64, Fe)> = t.input_table.iter().map(|r| (r.clk, r.value)).collect();
    assert_eq!(inputs, vec![(gets[0], fe(7)), (gets[1], fe(8)), (gets[2], fe(9))]);
    let puts: Vec<(u64, Fe)> =
        t.processor_table.iter().filter(|r| r.ci == PUTCHAR).map(|r| (r.clk, r.mv)).collect();
    let outputs: Vec<(u64, Fe)> = t.output_table.iter().map(|r| (r.clk, r.value)).collect();
    assert_eq!(outputs, puts);
    assert_eq!(outputs, vec![(1, fe(7)), (3, fe(8)), (6, fe(10))]);
    for w in t.input_table.windows(2) {
        assert!(w[0].clk < w[1].clk);
    }
    for w in t.output_table.windows(2) {
        assert!(w[0].clk < w[1].clk);
    }
}

#[test]
fn mvi_is_the_inverse() {
    let t = traced(b"++.", &[]);
    let r = t.processor_table[2];
    assert_eq!(r.mv, fe(2));
    assert_eq!(r.mv.mul(&r.mvi), fe(1));
    assert_eq!(t.processor_table[0].mvi, fe(0));
}

#[test]
fn sub_below_zero_wraps_in_the_field() {
    let t = traced(b"-.", &[]);
    assert_eq!(t.output_table[0].value, fe(0).sub(&fe(1)));
    assert_eq!(t.output_table[0].value.add(&fe(1)), fe(0));
}

#[test]
fn error_input_exhausted() {
    assert_eq!(run_error(b",", &[]), TraceError::InputExhausted);
    assert_eq!(run_error(b",,", &[1]), TraceError::InputExhausted);
}

#[test]
fn error_pointer_underflow() {
    assert_eq!(run_error(b"<", &[]), TraceError::PointerUnderflow);
}

#[test]
fn error_pointer_out_of_tape() {
    let mut code = vec![SHR; TAPE_SIZE];
    code.push(ADD);
    assert_eq!(run_error(&code, &[]), TraceError::PointerOutOfTape);
    let mut fits = vec![SHR; TAPE_SIZE - 1];
    fits.push(SHL);
    let t = traced(&fits, &[]);
    assert_eq!(t.processor_table.len(), TAPE_SIZE + 1);
}

#[test]
fn error_unknown_opcode() {
    let mut code = vec![LB];
    code.extend(std::iter::repeat(SHR).take(253));
    code.push(RB);
    assert_eq!(compile_code(&code)[1], 1);
    assert_eq!(run_error(&code, &[]), TraceError::UnknownOpcode);
}

#[test]
fn failed_run_keeps_tables() {
    let mut interpreter = Interpreter::new(b",".to_vec(), vec![]);
    assert_eq!(interpreter.run(), Err(TraceError::InputExhausted));
    assert!(interpreter.tables().processor_table.is_empty());
}
