//! Opcodes, and the compiler from source bytes to the program that the
//! tracer runs: opcodes only, each bracket followed by its jump target.
use vstd::prelude::*;

verus! {

pub const SHL: u8 = 60;

pub const SHR: u8 = 62;

pub const ADD: u8 = 43;

pub const SUB: u8 = 45;

pub const GETCHAR: u8 = 44;

pub const PUTCHAR: u8 = 46;

pub const LB: u8 = 91;

pub const RB: u8 = 93;

pub open spec fn is_opcode(b: u8) -> bool {
    b == SHL || b == SHR || b == ADD || b == SUB || b == GETCHAR || b == PUTCHAR || b == LB
        || b == RB
}

pub open spec fn is_bracket(b: u8) -> bool {
    b == LB || b == RB
}

/// The source reduced to its opcodes, with a zero byte after each bracket
/// where its jump target will go.
pub open spec fn layout(code: Seq<u8>) -> Seq<u8>
    decreases code.len(),
{
    if code.len() == 0 {
        Seq::empty()
    } else {
        let rest = layout(code.drop_last());
        let c = code.last();
        if is_bracket(c) {
            rest.push(c).push(0)
        } else if is_opcode(c) {
            rest.push(c)
        } else {
            rest
        }
    }
}

/// How much deeper the brackets of `u[a..b]` leave the nesting.
pub open spec fn depth(u: Seq<u8>, a: int, b: int) -> int
    decreases b - a,
{
    if b <= a {
        0
    } else {
        depth(u, a, b - 1) + if u[b - 1] == LB {
            1int
        } else if u[b - 1] == RB {
            -1int
        } else {
            0int
        }
    }
}

/// `u[i]` opens the bracket that `u[j]` closes.
pub open spec fn matched(u: Seq<u8>, i: int, j: int) -> bool {
    &&& 0 <= i < j < u.len()
    &&& u[i] == LB
    &&& u[j] == RB
    &&& depth(u, i, j + 1) == 0
    &&& forall|m: int| i < m <= j ==> #[trigger] depth(u, i, m) > 0
}

/// `n` taken as the low byte of an address.
pub open spec fn byte_of(n: int) -> u8 {
    (n % 256) as u8
}

/// A position that holds a jump target.
pub open spec fn is_target_slot(u: Seq<u8>, p: int) -> bool {
    0 < p < u.len() && is_bracket(u[p - 1])
}

/// Each bracket without a partner has 0 for its target.
#[verifier::opaque]
pub open spec fn unmatched_targets_zero(u: Seq<u8>, r: Seq<u8>) -> bool {
    &&& forall|i: int|
        0 <= i < u.len() && u[i] == LB && (forall|j: int| !matched(u, i, j)) ==> #[trigger] r[i
            + 1] == 0
    &&& forall|j: int|
        0 <= j < u.len() && u[j] == RB && (forall|i: int| !matched(u, i, j)) ==> #[trigger] r[j
            + 1] == 0
}

/// The compiled program: `layout(code)` with each matched pair's targets
/// written in, the position after the partner bracket, in one byte.
pub open spec fn compiled(code: Seq<u8>, r: Seq<u8>) -> bool {
    let u = layout(code);
    &&& r.len() == u.len()
    &&& forall|p: int| 0 <= p < u.len() && !is_target_slot(u, p) ==> #[trigger] r[p] == u[p]
    &&& forall|i: int, j: int|
        #[trigger] matched(u, i, j) ==> r[i + 1] == byte_of(j + 2) && r[j + 1] == byte_of(i + 2)
    &&& unmatched_targets_zero(u, r)
}

pub proof fn lemma_layout_slots(code: Seq<u8>)
    ensures
        forall|p: int|
            0 <= p < layout(code).len() && is_bracket(#[trigger] layout(code)[p]) ==> p + 1
                < layout(code).len() && layout(code)[p + 1] == 0,
        forall|p: int| 0 <= p < layout(code).len() ==> is_opcode(#[trigger] layout(code)[p]) || layout(code)[p] == 0,
    decreases code.len(),
{
    if code.len() > 0 {
        let rest = layout(code.drop_last());
        lemma_layout_slots(code.drop_last());
        let u = layout(code);
        assert forall|p: int| 0 <= p < u.len() implies (is_bracket(#[trigger] u[p]) ==> p + 1
            < u.len() && u[p + 1] == 0) && (is_opcode(u[p]) || u[p] == 0) by {
            if p < rest.len() {
                assert(u[p] == rest[p]);
                if is_bracket(u[p]) && p + 1 == rest.len() {
                    assert(false);
                }
                if p + 1 < rest.len() {
                    assert(u[p + 1] == rest[p + 1]);
                }
            }
        }
    }
}

/// Every position of the layout that is not a target slot holds an opcode.
pub proof fn lemma_layout_opcodes(code: Seq<u8>)
    ensures
        forall|p: int|
            0 <= p < layout(code).len() && !is_target_slot(layout(code), p) ==> is_opcode(
                #[trigger] layout(code)[p],
            ),
        layout(code).len() > 0 ==> !is_bracket(layout(code).last()),
    decreases code.len(),
{
    if code.len() > 0 {
        let rest = layout(code.drop_last());
        lemma_layout_opcodes(code.drop_last());
        let u = layout(code);
        assert forall|p: int| 0 <= p < u.len() && !is_target_slot(u, p) implies is_opcode(
            #[trigger] u[p],
        ) by {
            if p < rest.len() {
                assert(u[p] == rest[p]);
                if p > 0 {
                    assert(u[p - 1] == rest[p - 1]);
                }
            } else if p > rest.len() {
                assert(u[p - 1] == code.last());
            } else if p > 0 {
                assert(u[p - 1] == rest.last());
            }
        }
    }
}

proof fn lemma_depth_split(u: Seq<u8>, a: int, b: int, c: int)
    requires
        a <= b <= c,
    ensures
        depth(u, a, c) == depth(u, a, b) + depth(u, b, c),
    decreases c - b,
{
    if c > b {
        lemma_depth_split(u, a, b, c - 1);
    }
}

/// A bracket closes at most one opener, and an opener at most one closer.
proof fn lemma_matched_unique(u: Seq<u8>, i1: int, i2: int, j1: int, j2: int)
    ensures
        matched(u, i1, j1) && matched(u, i1, j2) ==> j1 == j2,
        matched(u, i1, j1) && matched(u, i2, j1) ==> i1 == i2,
{
    if matched(u, i1, j1) && matched(u, i1, j2) && j1 != j2 {
        if j1 < j2 {
            assert(depth(u, i1, j1 + 1) > 0);
        } else {
            assert(depth(u, i1, j2 + 1) > 0);
        }
    }
    if matched(u, i1, j1) && matched(u, i2, j1) && i1 != i2 {
        if i1 < i2 {
            lemma_depth_split(u, i1, i2, j1 + 1);
            assert(depth(u, i1, i2) > 0);
        } else {
            lemma_depth_split(u, i2, i1, j1 + 1);
            assert(depth(u, i2, i1) > 0);
        }
    }
}

pub fn is_insturction(value: u8) -> (r: bool)
    ensures
        r == is_opcode(value),
{
    value == SHL || value == SHR || value == ADD || value == SUB || value == GETCHAR || value
        == PUTCHAR || value == LB || value == RB
}

/// Compiles source bytes: drops every byte that is not an opcode, and after
/// each bracket writes the position just after its partner, in one byte
/// (0 for a bracket without a partner).
pub fn compile_code(code: &[u8]) -> (r: Vec<u8>)
    ensures
        compiled(code@, r@),
{
    let mut layout_bytes: Vec<u8> = Vec::new();
    let mut program: Vec<u8> = Vec::new();
    let mut k: usize = 0;
    while k < code.len()
        invariant
            k <= code@.len(),
            layout_bytes@ == layout(code@.take(k as int)),
            program@ == layout_bytes@,
        decreases code@.len() - k,
    {
        let item = code[k];
        proof {
            assert(code@.take(k as int + 1).drop_last() =~= code@.take(k as int));
        }
        if is_insturction(item) {
            layout_bytes.push(item);
            program.push(item);
            if item == LB || item == RB {
                layout_bytes.push(0);
                program.push(0);
            }
        }
        k = k + 1;
    }
    proof {
        assert(code@.take(k as int) =~= code@);
        lemma_layout_slots(code@);
    }
    let ghost u = layout(code@);
    let n = layout_bytes.len();
    let mut stack: Vec<usize> = Vec::new();
    let mut index: usize = 0;
    while index < n
        invariant
            n == u.len(),
            layout_bytes@ == u,
            program@.len() == n,
            index <= n,
            forall|p: int|
                0 <= p < n && is_bracket(#[trigger] u[p]) ==> p + 1 < n && u[p + 1] == 0,
            forall|a: int, b: int| 0 <= a < b < stack@.len() ==> stack@[a] < stack@[b],
            forall|t: int|
                0 <= t < stack@.len() ==> {
                    &&& #[trigger] stack@[t] < index
                    &&& u[stack@[t] as int] == LB
                    &&& depth(u, stack@[t] as int, index as int) == stack@.len() - t
                    &&& forall|m: int|
                        stack@[t] < m <= index ==> #[trigger] depth(u, stack@[t] as int, m) > 0
                    &&& program@[stack@[t] + 1] == 0
                },
            forall|i: int|
                0 <= i < index && u[i] == LB && !stack@.contains(i as usize) ==> exists|j: int|
                    j < index && #[trigger] matched(u, i, j),
            forall|p: int| 0 <= p < n && !is_target_slot(u, p) ==> #[trigger] program@[p] == u[p],
            forall|p: int| index < p < n ==> #[trigger] program@[p] == u[p],
            forall|i: int, j: int|
                #[trigger] matched(u, i, j) && j < index ==> program@[i + 1] == byte_of(j + 2)
                    && program@[j + 1] == byte_of(i + 2),
            forall|j: int|
                0 <= j < index && u[j] == RB && (forall|i: int| !matched(u, i, j))
                    ==> #[trigger] program@[j + 1] == 0,
        decreases n - index,
    {
        let item = layout_bytes[index];
        let ghost k = index as int;
        let ghost s0 = stack@;
        if item == LB {
            stack.push(index);
            proof {
                assert(depth(u, k, k + 1) == 1) by {
                    assert(depth(u, k, k) == 0);
                }
                assert forall|t: int| 0 <= t < stack@.len() implies {
                    &&& #[trigger] stack@[t] < k + 1
                    &&& u[stack@[t] as int] == LB
                    &&& depth(u, stack@[t] as int, k + 1) == stack@.len() - t
                    &&& forall|m: int|
                        stack@[t] < m <= k + 1 ==> #[trigger] depth(u, stack@[t] as int, m) > 0
                    &&& program@[stack@[t] + 1] == 0
                } by {
                    if t < s0.len() {
                        assert(stack@[t] == s0[t]);
                        assert(depth(u, s0[t] as int, k + 1) == depth(u, s0[t] as int, k) + 1);
                    }
                }
                assert forall|i: int|
                    0 <= i < k + 1 && u[i] == LB && !stack@.contains(i as usize) implies exists|
                        j: int,
                    | j < k + 1 && #[trigger] matched(u, i, j) by {
                    if i == k {
                        assert(stack@[stack@.len() - 1] == k);
                    } else {
                        if s0.contains(i as usize) {
                            let w = choose|w: int| 0 <= w < s0.len() && s0[w] == i as usize;
                            assert(stack@[w] == i as usize);
                        }
                        let j = choose|j: int| j < k && #[trigger] matched(u, i, j);
                    }
                }
            }
        } else if item == RB {
            if stack.len() > 0 {
                let lb_index = stack.pop().unwrap();
                let ghost t = lb_index as int;
                proof {
                    let top = s0.len() - 1;
                    assert(s0[top] == lb_index);
                    assert(depth(u, t, k + 1) == depth(u, t, k) - 1);
                    assert forall|m: int| t < m <= k implies #[trigger] depth(u, t, m) > 0 by {
                        assert(s0[top] == lb_index);
                    }
                    assert(matched(u, t, k));
                    vstd::arithmetic::div_mod::lemma_add_mod_noop(k, 2, 256);
                    vstd::arithmetic::div_mod::lemma_add_mod_noop(t, 2, 256);
                }
                program.set(lb_index + 1, ((index % 256 + 2) % 256) as u8);
                program.set(index + 1, ((lb_index % 256 + 2) % 256) as u8);
                proof {
                    assert forall|a: int| 0 <= a < stack@.len() implies {
                        &&& #[trigger] stack@[a] < k + 1
                        &&& u[stack@[a] as int] == LB
                        &&& depth(u, stack@[a] as int, k + 1) == stack@.len() - a
                        &&& forall|m: int|
                            stack@[a] < m <= k + 1 ==> #[trigger] depth(u, stack@[a] as int, m)
                                > 0
                        &&& program@[stack@[a] + 1] == 0
                    } by {
                        assert(stack@[a] == s0[a]);
                        assert(s0[a] < s0[s0.len() - 1]);
                        assert(depth(u, s0[a] as int, k + 1) == depth(u, s0[a] as int, k) - 1);
                    }
                    assert forall|i: int|
                        0 <= i < k + 1 && u[i] == LB && !stack@.contains(
                            i as usize,
                        ) implies exists|j: int| j < k + 1 && #[trigger] matched(u, i, j) by {
                        if i != t {
                            if s0.contains(i as usize) {
                                let w = choose|w: int| 0 <= w < s0.len() && s0[w] == i as usize;
                                assert(w != s0.len() - 1);
                                assert(stack@[w] == i as usize);
                            }
                            let j = choose|j: int| j < k && #[trigger] matched(u, i, j);
                        }
                    }
                    assert forall|i: int, j: int|
                        #[trigger] matched(u, i, j) && j < k + 1 implies program@[i + 1]
                            == byte_of(j + 2) && program@[j + 1] == byte_of(i + 2) by {
                        if j == k {
                            lemma_matched_unique(u, i, t, j, j);
                        } else {
                            assert(i != t) by {
                                if i == t {
                                    assert(depth(u, t, j + 1) > 0);
                                }
                            }
                        }
                    }
                    assert forall|j: int|
                        0 <= j < k + 1 && u[j] == RB && (forall|i: int| !matched(u, i, j))
                            implies #[trigger] program@[j + 1] == 0 by {
                        if j == k {
                            assert(!matched(u, t, k));
                        }
                    }
                }
            } else {
                proof {
                    assert forall|i: int| !matched(u, i, k) by {
                        if matched(u, i, k) {
                            let j = choose|j: int| j < k && #[trigger] matched(u, i, j);
                            lemma_matched_unique(u, i, i, j, k);
                        }
                    }
                }
            }
        } else {
            proof {
                assert forall|t: int| 0 <= t < stack@.len() implies depth(
                    u,
                    stack@[t] as int,
                    k + 1,
                ) == depth(u, stack@[t] as int, k) by {}
            }
        }
        index = index + 1;
    }
    proof {
        reveal(unmatched_targets_zero);
        assert forall|i: int|
            0 <= i < u.len() && u[i] == LB && (forall|j: int| !matched(u, i, j)) implies #[trigger] program@[i
                + 1] == 0 by {
            if !stack@.contains(i as usize) {
                let j = choose|j: int| j < n && #[trigger] matched(u, i, j);
            } else {
                let w = choose|w: int| 0 <= w < stack@.len() && stack@[w] == i as usize;
            }
        }
    }
    program
}

} // verus!
