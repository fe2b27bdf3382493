//! What holds of every compiled program and of every trace.
use crate::interpreter::{
    initial_machine, run_from, step, tables_of, trace, Machine, MAX_STEPS, TAPE_SIZE,
};
use crate::program::{
    byte_of, compiled, is_bracket, is_opcode, is_target_slot, layout, lemma_layout_opcodes, lemma_layout_slots, matched,
    GETCHAR, LB, PUTCHAR, RB,
};
use crate::constraints::{io_found, memory_found};
use crate::table::{
    instruction_part, ip_key, lemma_sorted_by_key_permutes, memory_part, mp_key, next_byte,
    lemma_sorted_by_key_orders, next_instruction, ordered_by, select, static_from, static_rows,
    strictly_increasing, InstrRow, IoRow,
    MemRow, ProcRow,
};
use vstd::prelude::*;

verus! {

pub open spec fn ci_key() -> spec_fn(ProcRow) -> nat {
    |r: ProcRow| r.ci as nat
}

/// The steps of a Processor table that ran opcode `op`, in order.
pub open spec fn steps_of(processor: Seq<ProcRow>, op: u8) -> Seq<ProcRow> {
    select(processor, ci_key(), op as nat)
}

/// The Output rows that the steps running `.` make: their clock and the
/// value they read.
pub open spec fn printed(processor: Seq<ProcRow>) -> Seq<IoRow> {
    steps_of(processor, PUTCHAR).map_values(|r: ProcRow| IoRow { clk: r.clk, value: r.mv })
}

pub open spec fn clocks_increase(rows: Seq<IoRow>) -> bool {
    forall|a: int, b: int| 0 <= a < b < rows.len() ==> #[trigger] rows[a].clk < #[trigger] rows[b].clk
}

/// A source compiles to one program only.
pub proof fn lemma_compiled_unique(code: Seq<u8>, r1: Seq<u8>, r2: Seq<u8>)
    requires
        compiled(code, r1),
        compiled(code, r2),
    ensures
        r1 == r2,
{
    let u = layout(code);
    reveal(crate::program::unmatched_targets_zero);
    assert forall|q: int| 0 <= q < u.len() implies r1[q] == r2[q] by {
        if is_target_slot(u, q) {
            let i = q - 1;
            if u[i] == LB {
                if exists|j: int| matched(u, i, j) {
                    let j = choose|j: int| matched(u, i, j);
                    assert(r1[i + 1] == byte_of(j + 2));
                } else {
                    assert(r1[i + 1] == 0);
                }
            } else {
                if exists|i0: int| matched(u, i0, i) {
                    let i0 = choose|i0: int| matched(u, i0, i);
                    assert(r1[i + 1] == byte_of(i0 + 2));
                } else {
                    assert(r1[i + 1] == 0);
                }
            }
        }
    }
    assert(r1 =~= r2);
}

/// Every matched pair of brackets carries its targets: the opener the
/// position after the closer, the closer the position after the opener,
/// in programs short enough for a position to fit in a byte.
pub proof fn lemma_jump_targets(code: Seq<u8>, r: Seq<u8>, i: int, j: int)
    requires
        compiled(code, r),
        layout(code).len() <= 254,
        matched(layout(code), i, j),
    ensures
        r[i] == LB,
        r[j] == RB,
        r[i + 1] == j + 2,
        r[j + 1] == i + 2,
{
    let u = layout(code);
    lemma_bracket_not_slot(code, i);
    lemma_bracket_not_slot(code, j);
    assert(r[i] == u[i]);
    assert(r[j] == u[j]);
    assert(r[i + 1] == byte_of(j + 2));
    assert(r[j + 1] == byte_of(i + 2));
}

proof fn lemma_bracket_not_slot(code: Seq<u8>, i: int)
    requires
        0 <= i < layout(code).len(),
        is_bracket(layout(code)[i]),
    ensures
        !is_target_slot(layout(code), i),
{
    lemma_layout_slots(code);
    if i > 0 {
        assert(is_bracket(layout(code)[i - 1]) ==> layout(code)[i] == 0);
    }
}

/// Tracing is a function of the source and the input: two tracers built
/// from the same source and input record the same tables, or fail alike.
pub proof fn lemma_trace_deterministic(
    code: Seq<u8>,
    inp: Seq<nat>,
    first: Seq<u8>,
    second: Seq<u8>,
)
    requires
        compiled(code, first),
        compiled(code, second),
    ensures
        trace(first, inp) == trace(second, inp),
{
    lemma_compiled_unique(code, first, second);
}

/// What holds of the machine between any two steps of a run.
spec fn machine_inv(inp: Seq<nat>, m: Machine) -> bool {
    &&& m.tape.len() == TAPE_SIZE
    &&& m.clk == m.rows.len()
    &&& forall|k: int| 0 <= k < m.rows.len() ==> (#[trigger] m.rows[k]).clk == k
    &&& m.rows.len() == 0 ==> m.ip == 0 && m.mp == 0 && m.mv == 0 && m.tape[0] == 0
    &&& m.rows.len() > 0 ==> m.rows[0].clk == 0 && m.rows[0].ip == 0 && m.rows[0].mp == 0
        && m.rows[0].mv == 0
    &&& m.consumed <= inp.len()
    &&& m.inputs.len() == m.consumed
    &&& steps_of(m.rows, GETCHAR).len() == m.inputs.len()
    &&& forall|k: int|
        0 <= k < m.inputs.len() ==> (#[trigger] m.inputs[k]).value == inp[k] && m.inputs[k].clk
            == steps_of(m.rows, GETCHAR)[k].clk
    &&& m.outputs == printed(m.rows)
    &&& clocks_increase(m.inputs)
    &&& clocks_increase(m.outputs)
    &&& forall|k: int| 0 <= k < m.inputs.len() ==> (#[trigger] m.inputs[k]).clk < m.clk
    &&& forall|k: int| 0 <= k < m.outputs.len() ==> (#[trigger] m.outputs[k]).clk < m.clk
}

proof fn lemma_step_inv(p: Seq<u8>, inp: Seq<nat>, m: Machine)
    requires
        machine_inv(inp, m),
        m.ip < p.len(),
        step(p, inp, m) is Ok,
    ensures
        machine_inv(inp, step(p, inp, m)->Ok_0),
{
    let m2 = step(p, inp, m)->Ok_0;
    let row = m2.rows.last();
    assert(m2.rows.drop_last() =~= m.rows);
    assert(m2.rows =~= m.rows.push(row));
    assert(row.clk == m.clk);
    let ci = p[m.ip as int];
    assert(row.ci == ci);
    assert forall|k: int| 0 <= k < m2.rows.len() implies (#[trigger] m2.rows[k]).clk == k by {
        if k < m.rows.len() {
            assert(m2.rows[k] == m.rows[k]);
        }
    }
    if m.rows.len() > 0 {
        assert(m2.rows[0] == m.rows[0]);
    }
    let g0 = steps_of(m.rows, GETCHAR);
    let g2 = steps_of(m2.rows, GETCHAR);
    let o0 = steps_of(m.rows, PUTCHAR);
    let o2 = steps_of(m2.rows, PUTCHAR);
    if ci == GETCHAR {
        assert(g2 =~= g0.push(row));
        assert(o2 =~= o0);
        assert(m2.inputs =~= m.inputs.push(IoRow { clk: m.clk, value: inp[m.consumed as int] }));
        assert forall|k: int|
            0 <= k < m2.inputs.len() implies (#[trigger] m2.inputs[k]).value == inp[k]
                && m2.inputs[k].clk == g2[k].clk by {
            if k < m.inputs.len() {
                assert(m2.inputs[k] == m.inputs[k]);
                assert(g2[k] == g0[k]);
            }
        }
        assert forall|a: int, b: int|
            0 <= a < b < m2.inputs.len() implies #[trigger] m2.inputs[a].clk
                < #[trigger] m2.inputs[b].clk by {
            assert(m2.inputs[a] == m.inputs[a]);
            if b < m.inputs.len() {
                assert(m2.inputs[b] == m.inputs[b]);
            }
        }
        assert forall|k: int| 0 <= k < m2.inputs.len() implies (#[trigger] m2.inputs[k]).clk
            < m2.clk by {
            if k < m.inputs.len() {
                assert(m2.inputs[k] == m.inputs[k]);
            }
        }
        assert(m2.outputs == printed(m2.rows));
    } else if ci == PUTCHAR {
        assert(g2 =~= g0);
        assert(o2 =~= o0.push(row));
        assert(m2.outputs =~= m.outputs.push(IoRow { clk: m.clk, value: row.mv }));
        assert(printed(m2.rows) =~= printed(m.rows).push(IoRow { clk: row.clk, value: row.mv }));
        assert forall|a: int, b: int|
            0 <= a < b < m2.outputs.len() implies #[trigger] m2.outputs[a].clk
                < #[trigger] m2.outputs[b].clk by {
            assert(m2.outputs[a] == m.outputs[a]);
            if b < m.outputs.len() {
                assert(m2.outputs[b] == m.outputs[b]);
            }
        }
        assert forall|k: int| 0 <= k < m2.outputs.len() implies (#[trigger] m2.outputs[k]).clk
            < m2.clk by {
            if k < m.outputs.len() {
                assert(m2.outputs[k] == m.outputs[k]);
            }
        }
    } else {
        assert(g2 =~= g0);
        assert(o2 =~= o0);
        assert(m2.outputs == printed(m2.rows));
    }
}

proof fn lemma_run_inv(p: Seq<u8>, inp: Seq<nat>, m: Machine, fuel: nat)
    requires
        machine_inv(inp, m),
        run_from(p, inp, m, fuel) is Ok,
    ensures
        machine_inv(inp, run_from(p, inp, m, fuel)->Ok_0),
        run_from(p, inp, m, fuel)->Ok_0.ip >= p.len(),
    decreases fuel,
{
    if m.ip < p.len() {
        lemma_step_inv(p, inp, m);
        lemma_run_inv(p, inp, step(p, inp, m)->Ok_0, (fuel - 1) as nat);
    }
}

/// The machine in which a successful run halts.
proof fn lemma_halted(p: Seq<u8>, inp: Seq<nat>) -> (m: Machine)
    requires
        trace(p, inp) is Ok,
    ensures
        machine_inv(inp, m),
        trace(p, inp)->Ok_0 == tables_of(p, m),
{
    assert(machine_inv(inp, initial_machine())) by {
        assert(steps_of(Seq::<ProcRow>::empty(), GETCHAR) =~= Seq::<ProcRow>::empty());
        assert(printed(Seq::<ProcRow>::empty()) =~= Seq::<IoRow>::empty());
    }
    lemma_run_inv(p, inp, initial_machine(), MAX_STEPS as nat);
    run_from(p, inp, initial_machine(), MAX_STEPS as nat)->Ok_0
}

/// The first Processor row starts at clock, address, pointer and value zero.
pub proof fn lemma_first_row(p: Seq<u8>, inp: Seq<nat>)
    requires
        trace(p, inp) is Ok,
    ensures
        ({
            let first = trace(p, inp)->Ok_0.processor[0];
            first.clk == 0 && first.ip == 0 && first.mp == 0 && first.mv == 0
        }),
{
    let m = lemma_halted(p, inp);
    let t = tables_of(p, m);
    if m.rows.len() > 0 {
        assert(t.processor[0] == m.rows[0]);
    }
}

/// Each Processor row's clock is one more than the row before it.
pub proof fn lemma_clock_steps(p: Seq<u8>, inp: Seq<nat>)
    requires
        trace(p, inp) is Ok,
    ensures
        ({
            let t = trace(p, inp)->Ok_0;
            forall|k: int|
                0 <= k < t.processor.len() - 1 ==> #[trigger] t.processor[k + 1].clk
                    == t.processor[k].clk + 1
        }),
{
    let m = lemma_halted(p, inp);
    let t = tables_of(p, m);
    assert forall|k: int| 0 <= k < t.processor.len() implies #[trigger] t.processor[k].clk == k by {
        if k < m.rows.len() {
            assert(t.processor[k] == m.rows[k]);
        }
    }
    assert forall|k: int| 0 <= k < t.processor.len() - 1 implies #[trigger] t.processor[k
        + 1].clk == t.processor[k].clk + 1 by {
        assert(t.processor[k].clk == k);
        assert(t.processor[k + 1].clk == k + 1);
    }
}

/// The Memory table holds the `(clk, mp, mv)` projection of the Processor
/// table, each row as often as there.
pub proof fn lemma_memory_permutes(p: Seq<u8>, inp: Seq<nat>)
    requires
        trace(p, inp) is Ok,
    ensures
        ({
            let t = trace(p, inp)->Ok_0;
            t.memory.to_multiset() == t.processor.map_values(
                |r: ProcRow| memory_part(r),
            ).to_multiset()
        }),
{
    let t = trace(p, inp)->Ok_0;
    lemma_sorted_by_key_permutes(t.processor.map_values(|r: ProcRow| memory_part(r)), mp_key());
}

proof fn lemma_static_from(code: Seq<u8>, p: Seq<u8>, i: int)
    requires
        compiled(code, p),
        0 <= i,
        i >= p.len() || !is_target_slot(layout(code), i),
    ensures
        forall|k: int|
            0 <= k < static_from(p, i).len() ==> {
                let s = #[trigger] static_from(p, i)[k];
                &&& i <= s.ip < p.len()
                &&& !is_target_slot(layout(code), s.ip as int)
                &&& is_opcode(s.ci)
                &&& s.ci == p[s.ip as int]
                &&& s.ni == next_byte(p, s.ip as int)
            },
        forall|a: int, b: int|
            0 <= a < b < static_from(p, i).len() ==> #[trigger] static_from(p, i)[a].ip
                < #[trigger] static_from(p, i)[b].ip,
        forall|q: int|
            i <= q < p.len() && !is_target_slot(layout(code), q) ==> exists|k: int|
                0 <= k < static_from(p, i).len() && (#[trigger] static_from(p, i)[k]).ip == q,
    decreases p.len() - i,
{
    let u = layout(code);
    if i < p.len() {
        lemma_layout_slots(code);
        lemma_layout_opcodes(code);
        assert(p[i] == u[i]);
        assert(is_opcode(p[i]));
        let j = next_instruction(p, i);
        if is_bracket(p[i]) {
            assert(i + 1 < u.len() && u[i + 1] == 0);
            if j < p.len() {
                assert(!is_target_slot(u, j));
            }
        } else {
            if j < p.len() {
                assert(!is_target_slot(u, j));
            }
        }
        if j < p.len() {
            lemma_static_from(code, p, j);
        }
        let rest = static_from(p, j);
        let row = InstrRow { ip: i as nat, ci: p[i], ni: next_byte(p, i) };
        let all = static_from(p, i);
        assert(all == seq![row] + rest);
        assert forall|k: int| 0 <= k < all.len() implies {
            let s = #[trigger] all[k];
            &&& i <= s.ip < p.len()
            &&& !is_target_slot(u, s.ip as int)
            &&& is_opcode(s.ci)
            &&& s.ci == p[s.ip as int]
            &&& s.ni == next_byte(p, s.ip as int)
        } by {
            if k > 0 {
                assert(all[k] == rest[k - 1]);
            }
        }
        assert forall|a: int, b: int| 0 <= a < b < all.len() implies #[trigger] all[a].ip
            < #[trigger] all[b].ip by {
            assert(all[b] == rest[b - 1]);
            if a > 0 {
                assert(all[a] == rest[a - 1]);
            }
        }
        assert forall|q: int| i <= q < p.len() && !is_target_slot(u, q) implies exists|k: int|
            0 <= k < all.len() && (#[trigger] all[k]).ip == q by {
            if q == i {
                assert(all[0].ip == q);
            } else {
                assert(q >= j) by {
                    if is_bracket(p[i]) && q == i + 1 {
                        assert(is_target_slot(u, q));
                    }
                }
                let k = choose|k: int| 0 <= k < rest.len() && (#[trigger] rest[k]).ip == q;
                assert(all[k + 1] == rest[k]);
            }
        }
    }
}

/// The static rows of a compiled program are exactly its instruction
/// positions, every position but the target bytes: once each and in order,
/// each with its opcode and the byte after it.
pub proof fn lemma_static_rows(code: Seq<u8>, p: Seq<u8>)
    requires
        compiled(code, p),
    ensures
        forall|k: int|
            0 <= k < static_rows(p).len() ==> {
                let s = #[trigger] static_rows(p)[k];
                &&& s.ip < p.len()
                &&& !is_target_slot(layout(code), s.ip as int)
                &&& is_opcode(s.ci)
                &&& s.ci == p[s.ip as int]
                &&& s.ni == next_byte(p, s.ip as int)
            },
        forall|a: int, b: int|
            0 <= a < b < static_rows(p).len() ==> #[trigger] static_rows(p)[a].ip
                < #[trigger] static_rows(p)[b].ip,
        forall|q: int|
            0 <= q < p.len() && !is_target_slot(layout(code), q) ==> exists|k: int|
                0 <= k < static_rows(p).len() && (#[trigger] static_rows(p)[k]).ip == q,
{
    lemma_static_from(code, p, 0);
    let s = static_rows(p);
    assert forall|q: int| 0 <= q < p.len() && !is_target_slot(layout(code), q) implies exists|
        k: int,
    | 0 <= k < s.len() && (#[trigger] s[k]).ip == q by {
        let k = choose|k: int|
            0 <= k < static_from(p, 0).len() && (#[trigger] static_from(p, 0)[k]).ip == q;
        assert(s[k].ip == q);
    }
}

/// The Instruction table holds the `(ip, ci, ni)` projection of the
/// Processor table together with the program's static rows, each row as
/// often as there.
pub proof fn lemma_instruction_permutes(p: Seq<u8>, inp: Seq<nat>)
    requires
        trace(p, inp) is Ok,
    ensures
        ({
            let t = trace(p, inp)->Ok_0;
            t.instruction.to_multiset() == t.processor.map_values(
                |r: ProcRow| instruction_part(r),
            ).to_multiset().add(static_rows(p).to_multiset())
        }),
{
    let t = trace(p, inp)->Ok_0;
    let a = t.processor.map_values(|r: ProcRow| instruction_part(r));
    let b = static_rows(p);
    lemma_sorted_by_key_permutes(a + b, ip_key());
    vstd::seq_lib::lemma_multiset_commutative(a, b);
}

/// The Input and Output tables list their clocks in strictly increasing
/// order.
pub proof fn lemma_io_clocks_increase(p: Seq<u8>, inp: Seq<nat>)
    requires
        trace(p, inp) is Ok,
    ensures
        clocks_increase(trace(p, inp)->Ok_0.input),
        clocks_increase(trace(p, inp)->Ok_0.output),
{
    let m = lemma_halted(p, inp);
}

/// The Input table pairs the clocks of the `,` steps with the input values
/// in the order read; the Output table pairs the clocks of the `.` steps
/// with the value each read.
pub proof fn lemma_io_tables(p: Seq<u8>, inp: Seq<nat>)
    requires
        trace(p, inp) is Ok,
    ensures
        ({
            let t = trace(p, inp)->Ok_0;
            let g = steps_of(t.processor, GETCHAR);
            &&& t.input.len() == g.len()
            &&& t.input.len() <= inp.len()
            &&& forall|k: int|
                0 <= k < t.input.len() ==> (#[trigger] t.input[k]).clk == g[k].clk
                    && t.input[k].value == inp[k]
            &&& t.output == printed(t.processor)
        }),
{
    let m = lemma_halted(p, inp);
    let t = tables_of(p, m);
    assert(t.processor.drop_last() =~= m.rows);
    assert(steps_of(t.processor, GETCHAR) =~= steps_of(m.rows, GETCHAR));
    assert(steps_of(t.processor, PUTCHAR) =~= steps_of(m.rows, PUTCHAR));
}

proof fn lemma_select_within<T>(s: Seq<T>, key: spec_fn(T) -> nat, v: nat)
    ensures
        forall|k: int|
            0 <= k < select(s, key, v).len() ==> s.contains(#[trigger] select(s, key, v)[k]),
    decreases s.len(),
{
    if s.len() > 0 {
        let t = s.drop_last();
        lemma_select_within(t, key, v);
        let sel = select(s, key, v);
        assert forall|k: int| 0 <= k < sel.len() implies s.contains(#[trigger] sel[k]) by {
            if k < select(t, key, v).len() {
                assert(sel[k] == select(t, key, v)[k]);
                let j = choose|j: int| 0 <= j < t.len() && t[j] == sel[k];
                assert(s[j] == sel[k]);
            } else {
                assert(s[s.len() - 1] == sel[k]);
            }
        }
    }
}

/// On every trace, each Memory row is found among the Processor rows.
pub proof fn lemma_memory_lookup_holds(p: Seq<u8>, inp: Seq<nat>)
    requires
        trace(p, inp) is Ok,
    ensures
        ({
            let t = trace(p, inp)->Ok_0;
            forall|k: int|
                0 <= k < t.memory.len() ==> memory_found(t.processor, #[trigger] t.memory[k])
        }),
{
    broadcast use vstd::seq_lib::group_to_multiset_ensures;

    let t = trace(p, inp)->Ok_0;
    let proj = t.processor.map_values(|r: ProcRow| memory_part(r));
    lemma_memory_permutes(p, inp);
    assert forall|k: int| 0 <= k < t.memory.len() implies memory_found(
        t.processor,
        #[trigger] t.memory[k],
    ) by {
        assert(t.memory.contains(t.memory[k]));
        assert(t.memory.to_multiset().count(t.memory[k]) > 0);
        assert(proj.contains(t.memory[k]));
        let j = choose|j: int| 0 <= j < proj.len() && proj[j] == t.memory[k];
        assert(memory_part(t.processor[j]) == t.memory[k]);
    }
}

/// On every trace, each Output row is found among the Processor rows as a
/// clock and the value read there.
pub proof fn lemma_output_lookup_holds(p: Seq<u8>, inp: Seq<nat>)
    requires
        trace(p, inp) is Ok,
    ensures
        ({
            let t = trace(p, inp)->Ok_0;
            forall|k: int| 0 <= k < t.output.len() ==> io_found(t.processor, #[trigger] t.output[k])
        }),
{
    let t = trace(p, inp)->Ok_0;
    lemma_io_tables(p, inp);
    let sel = steps_of(t.processor, PUTCHAR);
    lemma_select_within(t.processor, ci_key(), PUTCHAR as nat);
    assert forall|k: int| 0 <= k < t.output.len() implies io_found(
        t.processor,
        #[trigger] t.output[k],
    ) by {
        assert(t.output[k] == IoRow { clk: sel[k].clk, value: sel[k].mv });
        assert(t.processor.contains(sel[k]));
        let j = choose|j: int| 0 <= j < t.processor.len() && t.processor[j] == sel[k];
        assert(t.processor[j].clk == t.output[k].clk);
    }
}

pub open spec fn clk_key() -> spec_fn(MemRow) -> nat {
    |r: MemRow| r.clk
}

/// The Memory table is ordered by `mp`, and by `clk` within one `mp`.
pub proof fn lemma_memory_sorted(p: Seq<u8>, inp: Seq<nat>)
    requires
        trace(p, inp) is Ok,
    ensures
        ordered_by(trace(p, inp)->Ok_0.memory, mp_key(), clk_key()),
{
    let m = lemma_halted(p, inp);
    let t = tables_of(p, m);
    let proj = t.processor.map_values(|r: ProcRow| memory_part(r));
    assert forall|k: int| 0 <= k < t.processor.len() implies #[trigger] t.processor[k].clk == k by {
        if k < m.rows.len() {
            assert(t.processor[k] == m.rows[k]);
        }
    }
    assert(strictly_increasing(proj, clk_key())) by {
        assert forall|a: int, b: int| 0 <= a < b < proj.len() implies clk_key()(
            #[trigger] proj[a],
        ) < clk_key()(#[trigger] proj[b]) by {
            assert(proj[a].clk == t.processor[a].clk);
            assert(proj[b].clk == t.processor[b].clk);
        }
    }
    lemma_sorted_by_key_orders(proj, mp_key(), clk_key());
}

proof fn lemma_clock_is_index(p: Seq<u8>, inp: Seq<nat>)
    requires
        trace(p, inp) is Ok,
    ensures
        forall|k: int|
            0 <= k < trace(p, inp)->Ok_0.processor.len() ==> #[trigger] trace(
                p,
                inp,
            )->Ok_0.processor[k].clk == k,
{
    let m = lemma_halted(p, inp);
    let t = tables_of(p, m);
    assert forall|k: int| 0 <= k < t.processor.len() implies #[trigger] t.processor[k].clk == k by {
        if k < m.rows.len() {
            assert(t.processor[k] == m.rows[k]);
        }
    }
}

/// On every trace, a Memory row whose value is changed, the Processor table
/// left as it is, is found among no Processor row: the Memory lookup fails
/// there.
pub proof fn lemma_flipped_memory_fails(p: Seq<u8>, inp: Seq<nat>, k: int, v: nat)
    requires
        trace(p, inp) is Ok,
        0 <= k < trace(p, inp)->Ok_0.memory.len(),
        v != trace(p, inp)->Ok_0.memory[k].mv,
    ensures
        ({
            let t = trace(p, inp)->Ok_0;
            !memory_found(t.processor, MemRow { clk: t.memory[k].clk, mp: t.memory[k].mp, mv: v })
        }),
{
    let t = trace(p, inp)->Ok_0;
    let x = t.memory[k];
    let flipped = MemRow { clk: x.clk, mp: x.mp, mv: v };
    lemma_memory_lookup_holds(p, inp);
    lemma_clock_is_index(p, inp);
    assert(memory_found(t.processor, x));
    let j0 = choose|j: int| 0 <= j < t.processor.len() && memory_part(#[trigger] t.processor[j]) == x;
    if memory_found(t.processor, flipped) {
        let j = choose|j: int|
            0 <= j < t.processor.len() && memory_part(#[trigger] t.processor[j]) == flipped;
        assert(t.processor[j].clk == j);
        assert(t.processor[j0].clk == j0);
        assert(j == j0);
    }
}

} // verus!
