//! The tracer: a Brainfuck interpreter over field-valued cells that records
//! every step, and the mathematical machine that it is proved to follow.
use crate::field::{f_add, f_sub, inverse_of, Fe};
use crate::program::{compile_code, compiled, ADD, GETCHAR, LB, PUTCHAR, RB, SHL, SHR, SUB};
use crate::table::{
    instruction_of, instruction_table_of, memory_of, memory_table_of, next_byte, rows_view,
    InputTableRow, IoRow, OutputTableRow, ProcRow, ProcessTableRow, Tables, TablesView,
};
use vstd::prelude::*;

verus! {

/// The number of cells on the tape.
pub const TAPE_SIZE: usize = 30000;

/// The most steps a run can count: the range of the `u64` clock.
pub const MAX_STEPS: u64 = 18446744073709551615;

/// Why a run stopped without a trace.
#[derive(Clone, Copy, Debug, PartialEq, Eq)]
pub enum TraceError {
    /// `,` ran with no input left.
    InputExhausted,
    /// `<` ran with the pointer on the first cell.
    PointerUnderflow,
    /// A step began with the pointer past the last cell.
    PointerOutOfTape,
    /// The instruction pointer came to a byte that is no opcode.
    UnknownOpcode,
    /// The program was still running when its clock reached `MAX_STEPS`.
    StepLimit,
}

/// The machine's registers.
#[derive(Clone, Copy, Debug, PartialEq, Eq)]
pub struct Registers {
    pub clk: u64,
    pub ip: usize,
    pub ci: u8,
    pub ni: u8,
    pub mp: usize,
    pub mv: Fe,
    pub mvi: Fe,
}

impl From<Registers> for ProcessTableRow {
    fn from(registers: Registers) -> (r: ProcessTableRow) {
        ProcessTableRow {
            clk: registers.clk,
            ip: registers.ip,
            ci: registers.ci,
            ni: registers.ni,
            mp: registers.mp,
            mv: registers.mv,
            mvi: registers.mvi,
        }
    }
}

impl vstd::std_specs::convert::FromSpecImpl<Registers> for ProcessTableRow {
    open spec fn obeys_from_spec() -> bool {
        true
    }

    open spec fn from_spec(registers: Registers) -> ProcessTableRow {
        ProcessTableRow {
            clk: registers.clk,
            ip: registers.ip,
            ci: registers.ci,
            ni: registers.ni,
            mp: registers.mp,
            mv: registers.mv,
            mvi: registers.mvi,
        }
    }
}

/// The state of the machine between two steps, with what it has recorded.
pub struct Machine {
    pub clk: nat,
    pub ip: nat,
    pub mp: nat,
    /// The value read at the start of the last step.
    pub mv: nat,
    pub mvi: nat,
    pub tape: Seq<nat>,
    /// How many input values have been read.
    pub consumed: nat,
    pub rows: Seq<ProcRow>,
    pub inputs: Seq<IoRow>,
    pub outputs: Seq<IoRow>,
}

pub open spec fn initial_machine() -> Machine {
    Machine {
        clk: 0,
        ip: 0,
        mp: 0,
        mv: 0,
        mvi: 0,
        tape: Seq::new(TAPE_SIZE as nat, |i: int| 0nat),
        consumed: 0,
        rows: Seq::empty(),
        inputs: Seq::empty(),
        outputs: Seq::empty(),
    }
}

/// The machine after `m` moves its instruction pointer to `ip`.
pub open spec fn goto(m: Machine, ip: nat) -> Machine {
    Machine { ip, ..m }
}

/// One step of program `p` on input `inp`, from a machine whose instruction
/// pointer is inside the program.
pub open spec fn step(p: Seq<u8>, inp: Seq<nat>, m: Machine) -> Result<Machine, TraceError> {
    if m.mp >= TAPE_SIZE {
        Err(TraceError::PointerOutOfTape)
    } else {
        let mv = m.tape[m.mp as int];
        let mvi = inverse_of(mv);
        let ci = p[m.ip as int];
        let ni = next_byte(p, m.ip as int);
        let row = ProcRow { clk: m.clk, ip: m.ip, ci, ni, mp: m.mp, mv, mvi };
        let s = Machine { mv, mvi, rows: m.rows.push(row), clk: m.clk + 1, ..m };
        if ci == SHL {
            if m.mp == 0 {
                Err(TraceError::PointerUnderflow)
            } else {
                Ok(Machine { mp: (m.mp - 1) as nat, ip: m.ip + 1, ..s })
            }
        } else if ci == SHR {
            Ok(Machine { mp: m.mp + 1, ip: m.ip + 1, ..s })
        } else if ci == ADD {
            Ok(Machine { tape: m.tape.update(m.mp as int, f_add(mv, 1)), ip: m.ip + 1, ..s })
        } else if ci == SUB {
            Ok(Machine { tape: m.tape.update(m.mp as int, f_sub(mv, 1)), ip: m.ip + 1, ..s })
        } else if ci == GETCHAR {
            if m.consumed >= inp.len() {
                Err(TraceError::InputExhausted)
            } else {
                let v = inp[m.consumed as int];
                Ok(
                    Machine {
                        tape: m.tape.update(m.mp as int, v),
                        consumed: m.consumed + 1,
                        inputs: m.inputs.push(IoRow { clk: m.clk, value: v }),
                        ip: m.ip + 1,
                        ..s
                    },
                )
            }
        } else if ci == PUTCHAR {
            Ok(
                Machine {
                    outputs: m.outputs.push(IoRow { clk: m.clk, value: mv }),
                    ip: m.ip + 1,
                    ..s
                },
            )
        } else if ci == LB {
            Ok(
                goto(
                    s,
                    if mv != 0 {
                        m.ip + 2
                    } else {
                        ni as nat
                    },
                ),
            )
        } else if ci == RB {
            Ok(
                goto(
                    s,
                    if mv != 0 {
                        ni as nat
                    } else {
                        m.ip + 2
                    },
                ),
            )
        } else {
            Err(TraceError::UnknownOpcode)
        }
    }
}

/// Runs from `m` until the instruction pointer leaves the program, taking
/// at most `fuel` steps.
pub open spec fn run_from(p: Seq<u8>, inp: Seq<nat>, m: Machine, fuel: nat) -> Result<
    Machine,
    TraceError,
>
    decreases fuel,
{
    if m.ip >= p.len() {
        Ok(m)
    } else if fuel == 0 {
        Err(TraceError::StepLimit)
    } else {
        match step(p, inp, m) {
            Ok(m2) => run_from(p, inp, m2, (fuel - 1) as nat),
            Err(e) => Err(e),
        }
    }
}

/// The row appended after the last step: the final registers with `ci` and
/// `ni` cleared.
pub open spec fn terminal_row(m: Machine) -> ProcRow {
    ProcRow { clk: m.clk, ip: m.ip, ci: 0, ni: 0, mp: m.mp, mv: m.mv, mvi: m.mvi }
}

/// The five tables of a halted machine.
pub open spec fn tables_of(p: Seq<u8>, m: Machine) -> TablesView {
    let processor = m.rows.push(terminal_row(m));
    TablesView {
        processor,
        memory: memory_of(processor),
        instruction: instruction_of(processor, p),
        input: m.inputs,
        output: m.outputs,
    }
}

/// The trace of program `p` on input `inp`.
pub open spec fn trace(p: Seq<u8>, inp: Seq<nat>) -> Result<TablesView, TraceError> {
    match run_from(p, inp, initial_machine(), MAX_STEPS as nat) {
        Ok(m) => Ok(tables_of(p, m)),
        Err(e) => Err(e),
    }
}

impl Default for Tables {
    fn default() -> (r: Tables)
        ensures
            r@.processor.len() == 0,
            r@.memory.len() == 0,
            r@.instruction.len() == 0,
            r@.input.len() == 0,
            r@.output.len() == 0,
    {
        Tables {
            processor_table: Vec::new(),
            memory_table: Vec::new(),
            instruction_table: Vec::new(),
            input_table: Vec::new(),
            output_table: Vec::new(),
        }
    }
}

/// What a run holds between two steps.
struct RunState {
    registers: Registers,
    memory: Vec<Fe>,
    consumed: usize,
    processor: Vec<ProcessTableRow>,
    inputs: Vec<InputTableRow>,
    outputs: Vec<OutputTableRow>,
}

impl RunState {
    spec fn machine(&self) -> Machine {
        Machine {
            clk: self.registers.clk as nat,
            ip: self.registers.ip as nat,
            mp: self.registers.mp as nat,
            mv: self.registers.mv@,
            mvi: self.registers.mvi@,
            tape: rows_view(self.memory@),
            consumed: self.consumed as nat,
            rows: rows_view(self.processor@),
            inputs: rows_view(self.inputs@),
            outputs: rows_view(self.outputs@),
        }
    }

    spec fn bounded(&self, n: nat, steps: nat) -> bool {
        &&& self.memory@.len() == TAPE_SIZE
        &&& self.registers.mp <= TAPE_SIZE
        &&& self.registers.clk == steps
        &&& self.registers.ip + 1 < usize::MAX
        &&& forall|k: int|
            0 <= k < self.processor@.len() ==> (#[trigger] self.processor@[k]).mp <= TAPE_SIZE
                && self.processor@[k].ip < n
    }
}

/// Runs one step of `program` on `input`.
fn run_step(program: &Vec<u8>, input: &Vec<Fe>, st: &mut RunState) -> (r: Result<(), TraceError>)
    requires
        old(st).registers.ip < program@.len(),
        program@.len() + 2 < usize::MAX,
        old(st).registers.clk < MAX_STEPS,
        old(st).consumed <= input@.len(),
        old(st).bounded(program@.len() as nat, old(st).registers.clk as nat),
    ensures
        match step(program@, rows_view(input@), old(st).machine()) {
            Ok(m) => r is Ok && final(st).machine() == m && final(st).consumed <= input@.len()
                && final(st).bounded(program@.len() as nat, (old(st).registers.clk + 1) as nat),
            Err(e) => r == Err::<(), TraceError>(e),
        },
{
    let ghost m0 = old(st).machine();
    let n = program.len();
    if st.registers.mp >= TAPE_SIZE {
        return Err(TraceError::PointerOutOfTape);
    }
    let ip = st.registers.ip;
    let mp = st.registers.mp;
    let clk = st.registers.clk;
    let mv = st.memory[mp];
    let mvi = mv.invert_or_zero();
    let ci = program[ip];
    let ni = if ip + 1 < n {
        program[ip + 1]
    } else {
        0
    };
    st.registers.mv = mv;
    st.registers.mvi = mvi;
    st.registers.ci = ci;
    st.registers.ni = ni;
    let row = ProcessTableRow::from(st.registers);
    let ghost rows0 = st.processor@;
    st.processor.push(row);
    st.registers.clk = clk + 1;
    proof {
        assert(rows_view(st.processor@) =~= m0.rows.push(
            ProcRow { clk: m0.clk, ip: m0.ip, ci, ni, mp: m0.mp, mv: mv@, mvi: mvi@ },
        ));
        assert(mv@ == m0.tape[mp as int]);
    }
    if ci == SHL {
        if mp == 0 {
            return Err(TraceError::PointerUnderflow);
        }
        st.registers.mp = mp - 1;
        st.registers.ip = ip + 1;
    } else if ci == SHR {
        st.registers.mp = mp + 1;
        st.registers.ip = ip + 1;
    } else if ci == ADD {
        let one = Fe::one();
        st.memory.set(mp, mv.add(&one));
        st.registers.ip = ip + 1;
        proof {
            assert(rows_view(st.memory@) =~= m0.tape.update(mp as int, f_add(mv@, 1)));
        }
    } else if ci == SUB {
        let one = Fe::one();
        st.memory.set(mp, mv.sub(&one));
        st.registers.ip = ip + 1;
        proof {
            assert(rows_view(st.memory@) =~= m0.tape.update(mp as int, f_sub(mv@, 1)));
        }
    } else if ci == GETCHAR {
        if st.consumed >= input.len() {
            return Err(TraceError::InputExhausted);
        }
        let v = input[st.consumed];
        st.inputs.push(InputTableRow { clk, value: v });
        st.memory.set(mp, v);
        st.consumed = st.consumed + 1;
        st.registers.ip = ip + 1;
        proof {
            assert(rows_view(st.memory@) =~= m0.tape.update(mp as int, v@));
            assert(rows_view(st.inputs@) =~= m0.inputs.push(IoRow { clk: clk as nat, value: v@ }));
        }
    } else if ci == PUTCHAR {
        st.outputs.push(OutputTableRow { clk, value: mv });
        st.registers.ip = ip + 1;
        proof {
            assert(rows_view(st.outputs@) =~= m0.outputs.push(
                IoRow { clk: clk as nat, value: mv@ },
            ));
        }
    } else if ci == LB {
        if !mv.is_zero() {
            st.registers.ip = ip + 2;
        } else {
            st.registers.ip = ni as usize;
        }
    } else if ci == RB {
        if !mv.is_zero() {
            st.registers.ip = ni as usize;
        } else {
            st.registers.ip = ip + 2;
        }
    } else {
        return Err(TraceError::UnknownOpcode);
    }
    proof {
        assert(rows_view(st.processor@) =~= rows_view(rows0).push(row@));
        assert forall|k: int| 0 <= k < st.processor@.len() implies (#[trigger] st.processor@[
            k
        ]).mp <= TAPE_SIZE && st.processor@[k].ip < n by {
            if k < rows0.len() {
                assert(st.processor@[k] == rows0[k]);
            }
        }
    }
    Ok(())
}

/// The tracer: a compiled program and its input, and the tables of its run.
pub struct Interpreter {
    program: Vec<u8>,
    input: Vec<Fe>,
    tables: Tables,
}

impl Interpreter {
    /// The compiled program.
    pub closed spec fn program(&self) -> Seq<u8> {
        self.program@
    }

    /// The input values.
    pub closed spec fn input_values(&self) -> Seq<nat> {
        rows_view(self.input@)
    }

    /// The tables recorded by the last run that succeeded.
    pub closed spec fn tables_view(&self) -> TablesView {
        self.tables@
    }

    /// A tracer for source `code` on `input`, with empty tables.
    pub fn new(code: Vec<u8>, input: Vec<Fe>) -> (r: Interpreter)
        ensures
            compiled(code@, r.program()),
            r.input_values() == rows_view(input@),
            r.tables_view().processor.len() == 0,
            r.tables_view().memory.len() == 0,
            r.tables_view().instruction.len() == 0,
            r.tables_view().input.len() == 0,
            r.tables_view().output.len() == 0,
    {
        Interpreter { program: compile_code(code.as_slice()), input, tables: Tables::default() }
    }

    /// The compiled program.
    pub fn program_bytes(&self) -> (r: &Vec<u8>)
        ensures
            r@ == self.program(),
    {
        &self.program
    }

    pub fn tables(&self) -> (r: &Tables)
        ensures
            r@ == self.tables_view(),
    {
        &self.tables
    }

    /// Runs the program from the start, with a fresh tape and all of the
    /// input, and records the trace's tables. A run that fails keeps the
    /// tables it had.
    pub fn run(&mut self) -> (r: Result<(), TraceError>)
        requires
            old(self).program().len() + 2 < usize::MAX,
        ensures
            final(self).program() == old(self).program(),
            final(self).input_values() == old(self).input_values(),
            match trace(old(self).program(), old(self).input_values()) {
                Ok(t) => r == Ok::<(), TraceError>(()) && final(self).tables_view() == t,
                Err(e) => r == Err::<(), TraceError>(e) && final(self).tables_view() == old(
                    self,
                ).tables_view(),
            },
    {
        let ghost p = self.program@;
        let ghost inp = rows_view(self.input@);
        let n = self.program.len();
        let mut memory: Vec<Fe> = Vec::new();
        let mut k: usize = 0;
        while k < TAPE_SIZE
            invariant
                k <= TAPE_SIZE,
                rows_view(memory@) == Seq::new(k as nat, |i: int| 0nat),
            decreases TAPE_SIZE - k,
        {
            let ghost before = memory@;
            let z = Fe::zero();
            memory.push(z);
            proof {
                assert(rows_view(memory@) =~= rows_view(before).push(z@));
                assert(rows_view(memory@) =~= Seq::new((k + 1) as nat, |i: int| 0nat));
            }
            k = k + 1;
        }
        let zero = Fe::zero();
        let mut st = RunState {
            registers: Registers { clk: 0, ip: 0, ci: 0, ni: 0, mp: 0, mv: zero, mvi: zero },
            memory,
            consumed: 0,
            processor: Vec::new(),
            inputs: Vec::new(),
            outputs: Vec::new(),
        };
        proof {
            assert(rows_view(st.processor@) =~= Seq::<ProcRow>::empty());
            assert(rows_view(st.inputs@) =~= Seq::<IoRow>::empty());
            assert(rows_view(st.outputs@) =~= Seq::<IoRow>::empty());
            assert(st.machine() =~= initial_machine());
        }
        let mut fuel: u64 = MAX_STEPS;
        while st.registers.ip < n
            invariant
                n == self.program@.len(),
                p == self.program@,
                inp == rows_view(self.input@),
                n + 2 < usize::MAX,
                st.registers.clk + fuel == MAX_STEPS,
                st.consumed <= self.input@.len(),
                st.bounded(n as nat, st.registers.clk as nat),
                run_from(p, inp, st.machine(), fuel as nat) == run_from(
                    p,
                    inp,
                    initial_machine(),
                    MAX_STEPS as nat,
                ),
            decreases fuel,
        {
            if fuel == 0 {
                return Err(TraceError::StepLimit);
            }
            let stepped = run_step(&self.program, &self.input, &mut st);
            if let Err(e) = stepped {
                return Err(e);
            }
            fuel = fuel - 1;
        }
        st.registers.ci = 0;
        st.registers.ni = 0;
        let ghost rows0 = st.processor@;
        let last = ProcessTableRow::from(st.registers);
        st.processor.push(last);
        proof {
            assert(rows_view(st.processor@) =~= rows_view(rows0).push(last@));
            assert forall|k: int| 0 <= k < st.processor@.len() implies #[trigger] st.processor@[
                k
            ].mp < usize::MAX by {
                if k < rows0.len() {
                    assert(st.processor@[k] == rows0[k]);
                }
            }
            assert forall|k: int| 0 <= k < st.processor@.len() implies #[trigger] st.processor@[
                k
            ].ip < usize::MAX by {
                if k < rows0.len() {
                    assert(st.processor@[k] == rows0[k]);
                }
            }
        }
        let memory_table = memory_table_of(&st.processor);
        let instruction_table = instruction_table_of(&st.processor, &self.program);
        self.tables = Tables {
            processor_table: st.processor,
            memory_table,
            instruction_table,
            input_table: st.inputs,
            output_table: st.outputs,
        };
        Ok(())
    }
}

} // verus!
