//! The polynomial constraints on the tables, evaluated in the field: the
//! Processor table's boundary, consistency and transition constraints, the
//! Memory and Instruction tables' adjacency constraints, the ordering of the
//! Input and Output tables, and the four lookups that tie the tables to the
//! Processor table.
//!
//! The constraints are the ones the trace layout defines, taken as they are.
//! Some honest traces break them, and `check_tables` reports those breaks:
//! - the terminal row keeps the `mv` read by the last step, so a last step
//!   that changes the cell (`+`, `-`) breaks the transition into it;
//! - the static Instruction rows skip the target byte after each bracket, so
//!   the address steps by two there and the Instruction ip-step rule breaks;
//! - the Processor row at the clock of a `,` holds the cell's old value, so
//!   the Input lookup breaks unless the input equals it.
//! What does hold on every trace is proved in `laws`: the Memory and Output
//! lookups, and the Memory table's order.
use crate::field::{f_add, f_mul, f_sub, modulus, Fe};
use crate::program::{ADD, GETCHAR, LB, PUTCHAR, RB, SHL, SHR, SUB};
use crate::table::{
    instruction_part, memory_part, rows_view, InputTableRow, InstrRow, InstructionTableRow,
    IoRow, MemRow, MemoryTableRow, OutputTableRow, ProcRow, ProcessTableRow, Tables, TablesView,
};
use vstd::prelude::*;

verus! {

/// The eight opcodes, in the order the transition sums run over them.
pub open spec fn opcodes() -> Seq<u8> {
    seq![ADD, SUB, SHL, SHR, GETCHAR, PUTCHAR, LB, RB]
}

/// `∏ (ci − y)` over the first `k` opcodes `y` other than `x`.
pub open spec fn deselector_upto(x: u8, ci: nat, k: nat) -> nat
    decreases k,
{
    if k == 0 {
        1
    } else {
        let rest = deselector_upto(x, ci, (k - 1) as nat);
        let y = opcodes()[k - 1];
        if y == x {
            rest
        } else {
            f_mul(rest, f_sub(ci, y as nat))
        }
    }
}

/// The deselector of opcode `x`: `∏ (ci − y)` over the opcodes `y ≠ x`.
pub open spec fn deselector(x: u8, ci: nat) -> nat {
    deselector_upto(x, ci, 8)
}

/// `∏ (ci − y)` over the first `k` opcodes `y` other than `x`, as an integer.
spec fn factor_product(x: u8, ci: int, k: nat) -> int
    decreases k,
{
    if k == 0 {
        1
    } else {
        let rest = factor_product(x, ci, (k - 1) as nat);
        let y = opcodes()[k - 1];
        if y == x {
            rest
        } else {
            rest * (ci - y)
        }
    }
}

proof fn lemma_deselector_product(x: u8, ci: nat, k: nat)
    requires
        ci < modulus(),
        k <= 8,
    ensures
        deselector_upto(x, ci, k) == factor_product(x, ci as int, k) % (modulus() as int),
    decreases k,
{
    reveal(f_mul);
    reveal(f_sub);
    let m = modulus() as int;
    if k == 0 {
        vstd::arithmetic::div_mod::lemma_small_mod(1, modulus());
    } else {
        lemma_deselector_product(x, ci, (k - 1) as nat);
        let y = opcodes()[k - 1];
        if y != x {
            let rest = factor_product(x, ci as int, (k - 1) as nat);
            let d = ci - y;
            vstd::arithmetic::div_mod::lemma_mod_add_multiples_vanish(d, m);
            assert(((ci + modulus()) - y) as nat as int == m + d);
            vstd::arithmetic::div_mod::lemma_mul_mod_noop(rest, d, m);
        }
    }
}

proof fn lemma_factor_product_vanishes(x: u8, y: u8, k: nat, i: int)
    requires
        0 <= i < k <= 8,
        opcodes()[i] == y,
        y != x,
    ensures
        factor_product(x, y as int, k) == 0,
    decreases k,
{
    let rest = factor_product(x, y as int, (k - 1) as nat);
    let z = opcodes()[k - 1];
    if i < k - 1 {
        lemma_factor_product_vanishes(x, y, (k - 1) as nat, i);
        if z != x {
            assert(rest * (y - z) == 0) by (nonlinear_arith)
                requires
                    rest == 0,
            ;
        }
    } else {
        assert(rest * (y - z) == 0) by (nonlinear_arith)
            requires
                z == y,
        ;
    }
}

proof fn lemma_own_product(x: u8)
    requires
        crate::program::is_opcode(x),
    ensures
        factor_product(x, x as int, 8) != 0,
        -(modulus() as int) < factor_product(x, x as int, 8) < modulus(),
{
    reveal_with_fuel(factor_product, 9);
    assert(opcodes() =~= seq![ADD, SUB, SHL, SHR, GETCHAR, PUTCHAR, LB, RB]);
    if x == ADD {
        assert(factor_product(x, x as int, 8) == -4651200);
    } else if x == SUB {
        assert(factor_product(x, x as int, 8) == 2 * -15 * -17 * 1 * -1 * -46 * -48);
    } else if x == SHL {
        assert(factor_product(x, x as int, 8) == 17 * 15 * -2 * 16 * 14 * -31 * -33);
    } else if x == SHR {
        assert(factor_product(x, x as int, 8) == 19 * 17 * 2 * 18 * 16 * -29 * -31);
    } else if x == GETCHAR {
        assert(factor_product(x, x as int, 8) == 1 * -1 * -16 * -18 * -2 * -47 * -49);
    } else if x == PUTCHAR {
        assert(factor_product(x, x as int, 8) == 3 * 1 * -14 * -16 * 2 * -45 * -47);
    } else if x == LB {
        assert(factor_product(x, x as int, 8) == 48 * 46 * 31 * 29 * 47 * 45 * -2);
    } else {
        assert(factor_product(x, x as int, 8) == 50 * 48 * 33 * 31 * 49 * 47 * 2);
    }
}

/// A deselector vanishes at every opcode but its own, and only there.
pub proof fn lemma_deselector_selects(x: u8, y: u8)
    requires
        crate::program::is_opcode(x),
        crate::program::is_opcode(y),
    ensures
        (deselector(x, y as nat) == 0) == (x != y),
{
    lemma_deselector_product(x, y as nat, 8);
    let m = modulus() as int;
    if x == y {
        lemma_own_product(x);
        let v = factor_product(x, x as int, 8);
        if v > 0 {
            vstd::arithmetic::div_mod::lemma_small_mod(v as nat, modulus());
        } else {
            vstd::arithmetic::div_mod::lemma_mod_add_multiples_vanish(v, m);
            vstd::arithmetic::div_mod::lemma_small_mod((m + v) as nat, modulus());
        }
    } else {
        assert(opcodes() =~= seq![ADD, SUB, SHL, SHR, GETCHAR, PUTCHAR, LB, RB]);
        let i = if y == ADD {
            0
        } else if y == SUB {
            1
        } else if y == SHL {
            2
        } else if y == SHR {
            3
        } else if y == GETCHAR {
            4
        } else if y == PUTCHAR {
            5
        } else if y == LB {
            6
        } else {
            7
        };
        lemma_factor_product_vanishes(x, y, 8, i);
    }
}

/// `mv · mvi − 1`, zero exactly where `mv` has an inverse in `mvi`.
pub open spec fn flag_minus_one(r: ProcRow) -> nat {
    f_sub(f_mul(r.mv, r.mvi), 1)
}

pub open spec fn boundary_holds(r: ProcRow) -> bool {
    r.clk == 0 && r.ip == 0 && r.mp == 0 && r.mv == 0
}

/// `mv · (mv·mvi − 1) = 0` and `mvi · (mv·mvi − 1) = 0`.
pub open spec fn consistency_holds(r: ProcRow) -> bool {
    f_mul(r.mv, flag_minus_one(r)) == 0 && f_mul(r.mvi, flag_minus_one(r)) == 0
}

/// The constraint that opcode `x` puts on the step from `c` to `n`: on the
/// instruction pointer for `part` 0, on the memory pointer for 1, on the
/// memory value for 2.
pub open spec fn phi(part: nat, x: u8, c: ProcRow, n: ProcRow) -> nat {
    if part == 0 {
        if x == LB {
            f_add(
                f_mul(c.mv, f_sub(f_sub(n.ip, c.ip), 2)),
                f_mul(flag_minus_one(c), f_sub(n.ip, c.ni as nat)),
            )
        } else if x == RB {
            f_add(
                f_mul(flag_minus_one(c), f_sub(f_sub(n.ip, c.ip), 2)),
                f_mul(c.mv, f_sub(n.ip, c.ni as nat)),
            )
        } else {
            f_sub(f_sub(n.ip, c.ip), 1)
        }
    } else if part == 1 {
        if x == SHR {
            f_sub(f_sub(n.mp, c.mp), 1)
        } else if x == SHL {
            f_add(f_sub(n.mp, c.mp), 1)
        } else {
            f_sub(n.mp, c.mp)
        }
    } else {
        if x == ADD {
            f_sub(f_sub(n.mv, c.mv), 1)
        } else if x == SUB {
            f_add(f_sub(n.mv, c.mv), 1)
        } else if x == SHR || x == SHL || x == GETCHAR {
            0
        } else {
            f_sub(n.mv, c.mv)
        }
    }
}

/// `Σ D_x(ci) · Φ_x` over the first `k` opcodes `x`.
pub open spec fn transition_sum(part: nat, c: ProcRow, n: ProcRow, k: nat) -> nat
    decreases k,
{
    if k == 0 {
        0
    } else {
        let x = opcodes()[k - 1];
        f_add(
            transition_sum(part, c, n, (k - 1) as nat),
            f_mul(deselector(x, c.ci as nat), phi(part, x, c, n)),
        )
    }
}

/// The transition constraints from Processor row `c` to the next row `n`.
pub open spec fn transition_holds(c: ProcRow, n: ProcRow) -> bool {
    &&& f_sub(f_sub(n.clk, c.clk), 1) == 0
    &&& transition_sum(0, c, n, 8) == 0
    &&& transition_sum(1, c, n, 8) == 0
    &&& transition_sum(2, c, n, 8) == 0
}

/// The constraints between consecutive Memory rows: the pointer stays or
/// moves up by one, a value changes only from one clock to the next, and a
/// new cell starts at zero.
pub open spec fn memory_gate_holds(c: MemRow, n: MemRow) -> bool {
    let d = f_sub(n.mp, c.mp);
    &&& f_mul(d, f_sub(d, 1)) == 0
    &&& f_mul(f_mul(f_sub(d, 1), f_sub(n.mv, c.mv)), f_sub(f_sub(n.clk, c.clk), 1)) == 0
    &&& f_mul(d, n.mv) == 0
}

/// The constraints between consecutive Instruction rows: the address stays
/// or moves up by one, and rows of one address agree.
pub open spec fn instruction_gate_holds(c: InstrRow, n: InstrRow) -> bool {
    let d = f_sub(n.ip, c.ip);
    let e = f_sub(d, 1);
    &&& f_mul(e, d) == 0
    &&& f_mul(e, f_sub(n.ci as nat, c.ci as nat)) == 0
    &&& f_mul(e, f_sub(n.ni as nat, c.ni as nat)) == 0
}

pub open spec fn clocks_ordered_at(rows: Seq<IoRow>, k: int) -> bool {
    rows[k].clk < rows[k + 1].clk
}

pub open spec fn memory_found(processor: Seq<ProcRow>, x: MemRow) -> bool {
    exists|j: int| 0 <= j < processor.len() && memory_part(#[trigger] processor[j]) == x
}

pub open spec fn instruction_found(processor: Seq<ProcRow>, x: InstrRow) -> bool {
    exists|j: int| 0 <= j < processor.len() && instruction_part(#[trigger] processor[j]) == x
}

/// Some Processor row has the clock of `x` and holds its value in `mv`.
pub open spec fn io_found(processor: Seq<ProcRow>, x: IoRow) -> bool {
    exists|j: int|
        0 <= j < processor.len() && (#[trigger] processor[j]).clk == x.clk && processor[j].mv
            == x.value
}

/// A constraint that a set of tables breaks, with the first row it involves.
#[derive(Clone, Copy, Debug, PartialEq, Eq)]
pub enum ConstraintFailure {
    Boundary,
    Consistency(usize),
    ProcessorTransition(usize),
    MemoryTransition(usize),
    InstructionTransition(usize),
    InputOrder(usize),
    OutputOrder(usize),
    MemoryLookup(usize),
    InstructionLookup(usize),
    InputLookup(usize),
    OutputLookup(usize),
}

pub open spec fn processor_ok(p: Seq<ProcRow>) -> bool {
    &&& p.len() > 0 ==> boundary_holds(p[0])
    &&& forall|k: int| 0 <= k < p.len() ==> consistency_holds(#[trigger] p[k])
    &&& forall|k: int| 0 <= k < p.len() - 1 ==> transition_holds(#[trigger] p[k], p[k + 1])
}

pub open spec fn memory_ok(m: Seq<MemRow>) -> bool {
    forall|k: int| 0 <= k < m.len() - 1 ==> memory_gate_holds(#[trigger] m[k], m[k + 1])
}

pub open spec fn instruction_ok(s: Seq<InstrRow>) -> bool {
    forall|k: int| 0 <= k < s.len() - 1 ==> instruction_gate_holds(#[trigger] s[k], s[k + 1])
}

pub open spec fn io_ordered(rows: Seq<IoRow>) -> bool {
    forall|k: int| 0 <= k < rows.len() - 1 ==> #[trigger] clocks_ordered_at(rows, k)
}

pub open spec fn lookups_ok(t: TablesView) -> bool {
    &&& forall|k: int| 0 <= k < t.memory.len() ==> memory_found(t.processor, #[trigger] t.memory[k])
    &&& forall|k: int|
        0 <= k < t.instruction.len() ==> instruction_found(t.processor, #[trigger] t.instruction[k])
    &&& forall|k: int| 0 <= k < t.input.len() ==> io_found(t.processor, #[trigger] t.input[k])
    &&& forall|k: int| 0 <= k < t.output.len() ==> io_found(t.processor, #[trigger] t.output[k])
}

/// Every constraint of the circuit holds on the tables.
pub open spec fn satisfied(t: TablesView) -> bool {
    &&& processor_ok(t.processor)
    &&& memory_ok(t.memory)
    &&& instruction_ok(t.instruction)
    &&& io_ordered(t.input)
    &&& io_ordered(t.output)
    &&& lookups_ok(t)
}

/// The tables break the constraint that `f` names, at the row it gives.
pub open spec fn breaks(t: TablesView, f: ConstraintFailure) -> bool {
    match f {
        ConstraintFailure::Boundary => t.processor.len() > 0 && !boundary_holds(t.processor[0]),
        ConstraintFailure::Consistency(k) => k < t.processor.len() && !consistency_holds(
            t.processor[k as int],
        ),
        ConstraintFailure::ProcessorTransition(k) => k + 1 < t.processor.len() && !transition_holds(
            t.processor[k as int],
            t.processor[k + 1],
        ),
        ConstraintFailure::MemoryTransition(k) => k + 1 < t.memory.len() && !memory_gate_holds(
            t.memory[k as int],
            t.memory[k + 1],
        ),
        ConstraintFailure::InstructionTransition(k) => k + 1 < t.instruction.len()
            && !instruction_gate_holds(t.instruction[k as int], t.instruction[k + 1]),
        ConstraintFailure::InputOrder(k) => k + 1 < t.input.len() && !clocks_ordered_at(
            t.input,
            k as int,
        ),
        ConstraintFailure::OutputOrder(k) => k + 1 < t.output.len() && !clocks_ordered_at(
            t.output,
            k as int,
        ),
        ConstraintFailure::MemoryLookup(k) => k < t.memory.len() && !memory_found(
            t.processor,
            t.memory[k as int],
        ),
        ConstraintFailure::InstructionLookup(k) => k < t.instruction.len() && !instruction_found(
            t.processor,
            t.instruction[k as int],
        ),
        ConstraintFailure::InputLookup(k) => k < t.input.len() && !io_found(
            t.processor,
            t.input[k as int],
        ),
        ConstraintFailure::OutputLookup(k) => k < t.output.len() && !io_found(
            t.processor,
            t.output[k as int],
        ),
    }
}

/// A Processor row's cells as field elements.
struct Cells {
    clk: Fe,
    ip: Fe,
    ci: Fe,
    ni: Fe,
    mp: Fe,
    mv: Fe,
    mvi: Fe,
}

impl Cells {
    spec fn models(&self, r: ProcRow) -> bool {
        &&& self.clk@ == r.clk
        &&& self.ip@ == r.ip
        &&& self.ci@ == r.ci as nat
        &&& self.ni@ == r.ni as nat
        &&& self.mp@ == r.mp
        &&& self.mv@ == r.mv
        &&& self.mvi@ == r.mvi
    }
}

fn cells_of(r: &ProcessTableRow) -> (c: Cells)
    ensures
        c.models(r@),
{
    Cells {
        clk: Fe::from_u64(r.clk),
        ip: Fe::from_u64(r.ip as u64),
        ci: Fe::from_u64(r.ci as u64),
        ni: Fe::from_u64(r.ni as u64),
        mp: Fe::from_u64(r.mp as u64),
        mv: r.mv,
        mvi: r.mvi,
    }
}

/// The deselector of opcode `instruction` at opcode value `ci`.
pub fn create_deselector(instruction: u8, ci: &Fe) -> (r: Fe)
    ensures
        r@ == deselector(instruction, ci@),
{
    let ops: [u8; 8] = [ADD, SUB, SHL, SHR, GETCHAR, PUTCHAR, LB, RB];
    proof {
        assert(ops@ =~= opcodes());
    }
    let mut acc = Fe::one();
    let mut k: usize = 0;
    while k < 8
        invariant
            k <= 8,
            ops@ == opcodes(),
            acc@ == deselector_upto(instruction, ci@, k as nat),
        decreases 8 - k,
    {
        let y = ops[k];
        if y != instruction {
            let factor = ci.sub(&Fe::from_u64(y as u64));
            acc = acc.mul(&factor);
        }
        k = k + 1;
    }
    acc
}

fn phi_value(
    part: u8,
    x: u8,
    c: &Cells,
    n: &Cells,
    Ghost(rc): Ghost<ProcRow>,
    Ghost(rn): Ghost<ProcRow>,
) -> (r: Fe)
    requires
        c.models(rc),
        n.models(rn),
    ensures
        r@ == phi(part as nat, x, rc, rn),
{
    let one = Fe::one();
    let two = Fe::from_u64(2);
    if part == 0 {
        let step = n.ip.sub(&c.ip);
        if x == LB || x == RB {
            let flag = c.mv.mul(&c.mvi).sub(&one);
            let fall = step.sub(&two);
            let jump = n.ip.sub(&c.ni);
            if x == LB {
                c.mv.mul(&fall).add(&flag.mul(&jump))
            } else {
                flag.mul(&fall).add(&c.mv.mul(&jump))
            }
        } else {
            step.sub(&one)
        }
    } else if part == 1 {
        let moved = n.mp.sub(&c.mp);
        if x == SHR {
            moved.sub(&one)
        } else if x == SHL {
            moved.add(&one)
        } else {
            moved
        }
    } else {
        let changed = n.mv.sub(&c.mv);
        if x == ADD {
            changed.sub(&one)
        } else if x == SUB {
            changed.add(&one)
        } else if x == SHR || x == SHL || x == GETCHAR {
            Fe::zero()
        } else {
            changed
        }
    }
}

fn transition_value(
    part: u8,
    c: &Cells,
    n: &Cells,
    Ghost(rc): Ghost<ProcRow>,
    Ghost(rn): Ghost<ProcRow>,
) -> (r: Fe)
    requires
        c.models(rc),
        n.models(rn),
    ensures
        r@ == transition_sum(part as nat, rc, rn, 8),
{
    let ops: [u8; 8] = [ADD, SUB, SHL, SHR, GETCHAR, PUTCHAR, LB, RB];
    proof {
        assert(ops@ =~= opcodes());
    }
    let mut acc = Fe::zero();
    let mut k: usize = 0;
    while k < 8
        invariant
            k <= 8,
            ops@ == opcodes(),
            c.models(rc),
            n.models(rn),
            acc@ == transition_sum(part as nat, rc, rn, k as nat),
        decreases 8 - k,
    {
        let x = ops[k];
        let d = create_deselector(x, &c.ci);
        let f = phi_value(part, x, c, n, Ghost(rc), Ghost(rn));
        acc = acc.add(&d.mul(&f));
        k = k + 1;
    }
    acc
}

/// Whether the boundary constraints hold on the first Processor row.
pub fn boundary_check(r: &ProcessTableRow) -> (b: bool)
    ensures
        b == boundary_holds(r@),
{
    r.clk == 0 && r.ip == 0 && r.mp == 0 && r.mv.is_zero()
}

/// Whether the consistency constraints hold on a Processor row.
pub fn consistency_check(r: &ProcessTableRow) -> (b: bool)
    ensures
        b == consistency_holds(r@),
{
    let flag = r.mv.mul(&r.mvi).sub(&Fe::one());
    r.mv.mul(&flag).is_zero() && r.mvi.mul(&flag).is_zero()
}

/// Whether the transition constraints hold from Processor row `c` to `n`.
pub fn transition_check(c: &ProcessTableRow, n: &ProcessTableRow) -> (b: bool)
    ensures
        b == transition_holds(c@, n@),
{
    let cc = cells_of(c);
    let nc = cells_of(n);
    let clk_ok = nc.clk.sub(&cc.clk).sub(&Fe::one()).is_zero();
    let ip_ok = transition_value(0, &cc, &nc, Ghost(c@), Ghost(n@)).is_zero();
    let mp_ok = transition_value(1, &cc, &nc, Ghost(c@), Ghost(n@)).is_zero();
    let mv_ok = transition_value(2, &cc, &nc, Ghost(c@), Ghost(n@)).is_zero();
    clk_ok && ip_ok && mp_ok && mv_ok
}

/// Whether the constraints between consecutive Memory rows hold.
pub fn memory_gate_check(c: &MemoryTableRow, n: &MemoryTableRow) -> (b: bool)
    ensures
        b == memory_gate_holds(c@, n@),
{
    let one = Fe::one();
    let d = Fe::from_u64(n.mp as u64).sub(&Fe::from_u64(c.mp as u64));
    let d1 = d.sub(&one);
    let dv = n.mv.sub(&c.mv);
    let dc = Fe::from_u64(n.clk).sub(&Fe::from_u64(c.clk)).sub(&one);
    d.mul(&d1).is_zero() && d1.mul(&dv).mul(&dc).is_zero() && d.mul(&n.mv).is_zero()
}

/// Whether the constraints between consecutive Instruction rows hold.
pub fn instruction_gate_check(c: &InstructionTableRow, n: &InstructionTableRow) -> (b: bool)
    ensures
        b == instruction_gate_holds(c@, n@),
{
    let d = Fe::from_u64(n.ip as u64).sub(&Fe::from_u64(c.ip as u64));
    let e = d.sub(&Fe::one());
    let dci = Fe::from_u64(n.ci as u64).sub(&Fe::from_u64(c.ci as u64));
    let dni = Fe::from_u64(n.ni as u64).sub(&Fe::from_u64(c.ni as u64));
    e.mul(&d).is_zero() && e.mul(&dci).is_zero() && e.mul(&dni).is_zero()
}

fn check_processor(rows: &Vec<ProcessTableRow>) -> (r: Result<(), ConstraintFailure>)
    ensures
        (r is Ok) == processor_ok(rows_view(rows@)),
        r matches Err(f) ==> breaks(
            TablesView {
                processor: rows_view(rows@),
                memory: Seq::empty(),
                instruction: Seq::empty(),
                input: Seq::empty(),
                output: Seq::empty(),
            },
            f,
        ),
{
    let ghost p = rows_view(rows@);
    let n = rows.len();
    if n > 0 && !boundary_check(&rows[0]) {
        return Err(ConstraintFailure::Boundary);
    }
    let mut k: usize = 0;
    while k < n
        invariant
            k <= n,
            n == rows@.len(),
            p == rows_view(rows@),
            forall|j: int| 0 <= j < k ==> consistency_holds(#[trigger] p[j]),
        decreases n - k,
    {
        if !consistency_check(&rows[k]) {
            assert(!consistency_holds(p[k as int]));
            return Err(ConstraintFailure::Consistency(k));
        }
        k = k + 1;
    }
    let mut k: usize = 0;
    while k + 1 < n
        invariant
            k == 0 || k < n,
            n == rows@.len(),
            p == rows_view(rows@),
            forall|j: int| 0 <= j < k && j < n - 1 ==> transition_holds(#[trigger] p[j], p[j + 1]),
        decreases n - k,
    {
        if !transition_check(&rows[k], &rows[k + 1]) {
            assert(!transition_holds(p[k as int], p[k + 1]));
            return Err(ConstraintFailure::ProcessorTransition(k));
        }
        k = k + 1;
    }
    Ok(())
}

fn check_memory(rows: &Vec<MemoryTableRow>) -> (r: Option<usize>)
    ensures
        (r is None) == memory_ok(rows_view(rows@)),
        r matches Some(k) ==> k + 1 < rows@.len() && !memory_gate_holds(
            rows_view(rows@)[k as int],
            rows_view(rows@)[k + 1],
        ),
{
    let ghost m = rows_view(rows@);
    let n = rows.len();
    let mut k: usize = 0;
    while k + 1 < n
        invariant
            k == 0 || k < n,
            n == rows@.len(),
            m == rows_view(rows@),
            forall|j: int| 0 <= j < k && j < n - 1 ==> memory_gate_holds(#[trigger] m[j], m[j + 1]),
        decreases n - k,
    {
        if !memory_gate_check(&rows[k], &rows[k + 1]) {
            assert(!memory_gate_holds(m[k as int], m[k + 1]));
            return Some(k);
        }
        k = k + 1;
    }
    None
}

fn check_instruction(rows: &Vec<InstructionTableRow>) -> (r: Option<usize>)
    ensures
        (r is None) == instruction_ok(rows_view(rows@)),
        r matches Some(k) ==> k + 1 < rows@.len() && !instruction_gate_holds(
            rows_view(rows@)[k as int],
            rows_view(rows@)[k + 1],
        ),
{
    let ghost s = rows_view(rows@);
    let n = rows.len();
    let mut k: usize = 0;
    while k + 1 < n
        invariant
            k == 0 || k < n,
            n == rows@.len(),
            s == rows_view(rows@),
            forall|j: int|
                0 <= j < k && j < n - 1 ==> instruction_gate_holds(#[trigger] s[j], s[j + 1]),
        decreases n - k,
    {
        if !instruction_gate_check(&rows[k], &rows[k + 1]) {
            assert(!instruction_gate_holds(s[k as int], s[k + 1]));
            return Some(k);
        }
        k = k + 1;
    }
    None
}

fn check_input_order(rows: &Vec<InputTableRow>) -> (r: Option<usize>)
    ensures
        (r is None) == io_ordered(rows_view(rows@)),
        r matches Some(k) ==> k + 1 < rows@.len() && !clocks_ordered_at(rows_view(rows@), k as int),
{
    let ghost s = rows_view(rows@);
    let n = rows.len();
    let mut k: usize = 0;
    while k + 1 < n
        invariant
            k == 0 || k < n,
            n == rows@.len(),
            s == rows_view(rows@),
            forall|j: int| 0 <= j < k && j < n - 1 ==> #[trigger] clocks_ordered_at(s, j),
        decreases n - k,
    {
        if rows[k].clk >= rows[k + 1].clk {
            assert(!clocks_ordered_at(s, k as int));
            return Some(k);
        }
        k = k + 1;
    }
    None
}

fn check_output_order(rows: &Vec<OutputTableRow>) -> (r: Option<usize>)
    ensures
        (r is None) == io_ordered(rows_view(rows@)),
        r matches Some(k) ==> k + 1 < rows@.len() && !clocks_ordered_at(rows_view(rows@), k as int),
{
    let ghost s = rows_view(rows@);
    let n = rows.len();
    let mut k: usize = 0;
    while k + 1 < n
        invariant
            k == 0 || k < n,
            n == rows@.len(),
            s == rows_view(rows@),
            forall|j: int| 0 <= j < k && j < n - 1 ==> #[trigger] clocks_ordered_at(s, j),
        decreases n - k,
    {
        if rows[k].clk >= rows[k + 1].clk {
            assert(!clocks_ordered_at(s, k as int));
            return Some(k);
        }
        k = k + 1;
    }
    None
}

/// Whether some Processor row has the `(clk, mp, mv)` of `x`.
fn find_memory(processor: &Vec<ProcessTableRow>, x: &MemoryTableRow) -> (b: bool)
    ensures
        b == memory_found(rows_view(processor@), x@),
{
    let ghost p = rows_view(processor@);
    let mut j: usize = 0;
    while j < processor.len()
        invariant
            j <= processor@.len(),
            p == rows_view(processor@),
            forall|i: int| 0 <= i < j ==> memory_part(#[trigger] p[i]) != x@,
        decreases processor@.len() - j,
    {
        let r = &processor[j];
        if r.clk == x.clk && r.mp == x.mp && r.mv.equals(&x.mv) {
            assert(memory_part(p[j as int]) == x@);
            return true;
        }
        j = j + 1;
    }
    false
}

/// Whether some Processor row has the `(ip, ci, ni)` of `x`.
fn find_instruction(processor: &Vec<ProcessTableRow>, x: &InstructionTableRow) -> (b: bool)
    ensures
        b == instruction_found(rows_view(processor@), x@),
{
    let ghost p = rows_view(processor@);
    let mut j: usize = 0;
    while j < processor.len()
        invariant
            j <= processor@.len(),
            p == rows_view(processor@),
            forall|i: int| 0 <= i < j ==> instruction_part(#[trigger] p[i]) != x@,
        decreases processor@.len() - j,
    {
        let r = &processor[j];
        if r.ip == x.ip && r.ci == x.ci && r.ni == x.ni {
            assert(instruction_part(p[j as int]) == x@);
            return true;
        }
        j = j + 1;
    }
    false
}

/// Whether some Processor row has clock `clk` and value `value` in `mv`.
fn find_io(processor: &Vec<ProcessTableRow>, clk: u64, value: &Fe) -> (b: bool)
    ensures
        b == io_found(rows_view(processor@), IoRow { clk: clk as nat, value: value@ }),
{
    let ghost p = rows_view(processor@);
    let ghost x = IoRow { clk: clk as nat, value: value@ };
    let mut j: usize = 0;
    while j < processor.len()
        invariant
            j <= processor@.len(),
            p == rows_view(processor@),
            x == (IoRow { clk: clk as nat, value: value@ }),
            forall|i: int| 0 <= i < j ==> !((#[trigger] p[i]).clk == x.clk && p[i].mv == x.value),
        decreases processor@.len() - j,
    {
        let r = &processor[j];
        assert(p[j as int] == processor@[j as int]@);
        let same_clk = r.clk == clk;
        let same_value = r.mv.equals(value);
        assert(same_clk == (p[j as int].clk == x.clk));
        assert(same_value == (p[j as int].mv == x.value));
        if same_clk && same_value {
            return true;
        }
        j = j + 1;
    }
    false
}

/// The first Memory row whose `(clk, mp, mv)` no Processor row has.
pub fn memory_lookup_failure(t: &Tables) -> (r: Option<usize>)
    ensures
        (r is None) == (forall|k: int|
            0 <= k < t@.memory.len() ==> memory_found(t@.processor, #[trigger] t@.memory[k])),
        r matches Some(k) ==> breaks(t@, ConstraintFailure::MemoryLookup(k)),
{
    let ghost v = t@;
    let mut k: usize = 0;
    while k < t.memory_table.len()
        invariant
            k <= v.memory.len(),
            v == t@,
            forall|i: int| 0 <= i < k ==> memory_found(v.processor, #[trigger] v.memory[i]),
        decreases v.memory.len() - k,
    {
        assert(v.memory[k as int] == t.memory_table@[k as int]@);
        if !find_memory(&t.processor_table, &t.memory_table[k]) {
            assert(!memory_found(v.processor, v.memory[k as int]));
            return Some(k);
        }
        k = k + 1;
    }
    None
}

/// The first Instruction row whose `(ip, ci, ni)` no Processor row has.
pub fn instruction_lookup_failure(t: &Tables) -> (r: Option<usize>)
    ensures
        (r is None) == (forall|k: int|
            0 <= k < t@.instruction.len() ==> instruction_found(
                t@.processor,
                #[trigger] t@.instruction[k],
            )),
        r matches Some(k) ==> breaks(t@, ConstraintFailure::InstructionLookup(k)),
{
    let ghost v = t@;
    let mut k: usize = 0;
    while k < t.instruction_table.len()
        invariant
            k <= v.instruction.len(),
            v == t@,
            forall|i: int| 0 <= i < k ==> instruction_found(v.processor, #[trigger] v.instruction[i]),
        decreases v.instruction.len() - k,
    {
        assert(v.instruction[k as int] == t.instruction_table@[k as int]@);
        if !find_instruction(&t.processor_table, &t.instruction_table[k]) {
            assert(!instruction_found(v.processor, v.instruction[k as int]));
            return Some(k);
        }
        k = k + 1;
    }
    None
}

/// The first Input row whose clock and value no Processor row has in
/// `clk` and `mv`.
pub fn input_lookup_failure(t: &Tables) -> (r: Option<usize>)
    ensures
        (r is None) == (forall|k: int|
            0 <= k < t@.input.len() ==> io_found(t@.processor, #[trigger] t@.input[k])),
        r matches Some(k) ==> breaks(t@, ConstraintFailure::InputLookup(k)),
{
    let ghost v = t@;
    let mut k: usize = 0;
    while k < t.input_table.len()
        invariant
            k <= v.input.len(),
            v == t@,
            forall|i: int| 0 <= i < k ==> io_found(v.processor, #[trigger] v.input[i]),
        decreases v.input.len() - k,
    {
        assert(v.input[k as int] == t.input_table@[k as int]@);
        if !find_io(&t.processor_table, t.input_table[k].clk, &t.input_table[k].value) {
            assert(!io_found(v.processor, v.input[k as int]));
            return Some(k);
        }
        k = k + 1;
    }
    None
}

/// The first Output row whose clock and value no Processor row has in
/// `clk` and `mv`.
pub fn output_lookup_failure(t: &Tables) -> (r: Option<usize>)
    ensures
        (r is None) == (forall|k: int|
            0 <= k < t@.output.len() ==> io_found(t@.processor, #[trigger] t@.output[k])),
        r matches Some(k) ==> breaks(t@, ConstraintFailure::OutputLookup(k)),
{
    let ghost v = t@;
    let mut k: usize = 0;
    while k < t.output_table.len()
        invariant
            k <= v.output.len(),
            v == t@,
            forall|i: int| 0 <= i < k ==> io_found(v.processor, #[trigger] v.output[i]),
        decreases v.output.len() - k,
    {
        assert(v.output[k as int] == t.output_table@[k as int]@);
        if !find_io(&t.processor_table, t.output_table[k].clk, &t.output_table[k].value) {
            assert(!io_found(v.processor, v.output[k as int]));
            return Some(k);
        }
        k = k + 1;
    }
    None
}

/// The circuit's public instance: the Output values, then the Input values,
/// each in table order.
pub fn public_inputs(t: &Tables) -> (r: (Vec<Fe>, Vec<Fe>))
    ensures
        r.0@.map_values(|v: Fe| v@) == t@.output.map_values(|x: IoRow| x.value),
        r.1@.map_values(|v: Fe| v@) == t@.input.map_values(|x: IoRow| x.value),
{
    let ghost v = t@;
    let mut outputs: Vec<Fe> = Vec::new();
    let mut k: usize = 0;
    while k < t.output_table.len()
        invariant
            k <= v.output.len(),
            v == t@,
            outputs@.map_values(|x: Fe| x@) == v.output.take(k as int).map_values(
                |x: IoRow| x.value,
            ),
        decreases v.output.len() - k,
    {
        let ghost before = outputs@;
        outputs.push(t.output_table[k].value);
        proof {
            assert(outputs@.map_values(|x: Fe| x@) =~= before.map_values(|x: Fe| x@).push(
                t.output_table@[k as int].value@,
            ));
            assert(v.output.take(k as int + 1).map_values(|x: IoRow| x.value) =~= v.output.take(
                k as int,
            ).map_values(|x: IoRow| x.value).push(v.output[k as int].value));
        }
        k = k + 1;
    }
    let mut inputs: Vec<Fe> = Vec::new();
    let mut k: usize = 0;
    while k < t.input_table.len()
        invariant
            k <= v.input.len(),
            v == t@,
            inputs@.map_values(|x: Fe| x@) == v.input.take(k as int).map_values(|x: IoRow| x.value),
        decreases v.input.len() - k,
    {
        let ghost before = inputs@;
        inputs.push(t.input_table[k].value);
        proof {
            assert(inputs@.map_values(|x: Fe| x@) =~= before.map_values(|x: Fe| x@).push(
                t.input_table@[k as int].value@,
            ));
            assert(v.input.take(k as int + 1).map_values(|x: IoRow| x.value) =~= v.input.take(
                k as int,
            ).map_values(|x: IoRow| x.value).push(v.input[k as int].value));
        }
        k = k + 1;
    }
    proof {
        assert(v.output.take(v.output.len() as int) =~= v.output);
        assert(v.input.take(v.input.len() as int) =~= v.input);
    }
    (outputs, inputs)
}

/// Checks every constraint of the circuit on the tables: `Ok` exactly when
/// all hold, and otherwise a constraint that the tables break.
pub fn check_tables(t: &Tables) -> (r: Result<(), ConstraintFailure>)
    ensures
        (r is Ok) == satisfied(t@),
        r matches Err(f) ==> breaks(t@, f),
{
    check_processor(&t.processor_table)?;
    if let Some(k) = check_memory(&t.memory_table) {
        return Err(ConstraintFailure::MemoryTransition(k));
    }
    if let Some(k) = check_instruction(&t.instruction_table) {
        return Err(ConstraintFailure::InstructionTransition(k));
    }
    if let Some(k) = check_input_order(&t.input_table) {
        return Err(ConstraintFailure::InputOrder(k));
    }
    if let Some(k) = check_output_order(&t.output_table) {
        return Err(ConstraintFailure::OutputOrder(k));
    }
    if let Some(k) = memory_lookup_failure(t) {
        return Err(ConstraintFailure::MemoryLookup(k));
    }
    if let Some(k) = instruction_lookup_failure(t) {
        return Err(ConstraintFailure::InstructionLookup(k));
    }
    if let Some(k) = input_lookup_failure(t) {
        return Err(ConstraintFailure::InputLookup(k));
    }
    if let Some(k) = output_lookup_failure(t) {
        return Err(ConstraintFailure::OutputLookup(k));
    }
    Ok(())
}

} // verus!
