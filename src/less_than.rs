//! The less-than gadget of the Input and Output tables: a bit `lt` and four
//! byte limbs `diff` with `lhs − rhs − Σ diff[i]·256ⁱ + lt·2³² = 0`. The limbs
//! are held as bytes, which is what the gadget's range lookup enforces.
use crate::constraints::clocks_ordered_at;
use crate::field::{f_add, f_mul, f_sub, modulus, Fe};
use crate::table::IoRow;
use vstd::prelude::*;

verus! {

/// `2^(8·4)`, the range of four byte limbs.
pub const RANGE: u64 = 4294967296;

/// `256^k` in the field.
pub open spec fn pow256(k: nat) -> nat
    decreases k,
{
    if k == 0 {
        1
    } else {
        f_mul(pow256((k - 1) as nat), 256)
    }
}

/// `Σ s[i]·256^i` over the first `k` limbs, in the field.
pub open spec fn bytes_sum(s: Seq<nat>, k: nat) -> nat
    decreases k,
{
    if k == 0 {
        0
    } else {
        f_add(bytes_sum(s, (k - 1) as nat), f_mul(s[k - 1], pow256((k - 1) as nat)))
    }
}

/// A witness of the gadget: the bit and the four limbs of the difference.
#[derive(Clone, Copy, Debug, PartialEq, Eq)]
pub struct LtWitness {
    pub lt: bool,
    pub diff: [u8; 4],
}

pub open spec fn limbs(d: Seq<u8>) -> Seq<nat> {
    d.map_values(|b: u8| b as nat)
}

pub open spec fn bit(b: bool) -> nat {
    if b {
        1
    } else {
        0
    }
}

/// The gadget's identity `lhs − rhs − Σ diff[i]·256ⁱ + lt·2³² = 0` holds.
pub open spec fn lt_gate_holds(lhs: nat, rhs: nat, w: LtWitness) -> bool {
    f_add(f_sub(f_sub(lhs, rhs), bytes_sum(limbs(w.diff@), 4)), f_mul(bit(w.lt), RANGE as nat))
        == 0
}

/// `Σ bytes[i]·256^i` in the field.
pub fn expr_from_bytes(bytes: &[Fe]) -> (r: Fe)
    ensures
        r@ == bytes_sum(bytes@.map_values(|b: Fe| b@), bytes@.len() as nat),
{
    let ghost s = bytes@.map_values(|b: Fe| b@);
    let radix = Fe::from_u64(256);
    let mut value = Fe::zero();
    let mut multiplier = Fe::one();
    let mut k: usize = 0;
    while k < bytes.len()
        invariant
            k <= bytes@.len(),
            s == bytes@.map_values(|b: Fe| b@),
            radix@ == 256,
            value@ == bytes_sum(s, k as nat),
            multiplier@ == pow256(k as nat),
        decreases bytes@.len() - k,
    {
        value = value.add(&bytes[k].mul(&multiplier));
        multiplier = multiplier.mul(&radix);
        k = k + 1;
    }
    value
}

/// `v·(v − 1)`, which vanishes exactly on bits.
pub fn bool_check(value: &Fe) -> (r: Fe)
    ensures
        r@ == f_mul(value@, f_sub(value@, 1)),
{
    value.mul(&value.sub(&Fe::one()))
}

/// Whether the gadget's identity holds for `lhs`, `rhs` and witness `w`.
pub fn lt_gate_check(lhs: &Fe, rhs: &Fe, w: &LtWitness) -> (r: bool)
    ensures
        r == lt_gate_holds(lhs@, rhs@, *w),
{
    let mut diff: Vec<Fe> = Vec::new();
    let mut k: usize = 0;
    while k < 4
        invariant
            k <= 4,
            diff@.map_values(|b: Fe| b@) == limbs(w.diff@).take(k as int),
        decreases 4 - k,
    {
        let ghost before = diff@;
        let limb = Fe::from_u64(w.diff[k] as u64);
        diff.push(limb);
        proof {
            assert(diff@.map_values(|b: Fe| b@) =~= before.map_values(|b: Fe| b@).push(limb@));
            assert(limbs(w.diff@).take(k as int + 1) =~= limbs(w.diff@).take(k as int).push(
                limbs(w.diff@)[k as int],
            ));
        }
        k = k + 1;
    }
    proof {
        assert(limbs(w.diff@).take(4) =~= limbs(w.diff@));
    }
    let lt = if w.lt {
        Fe::one()
    } else {
        Fe::zero()
    };
    let check = lhs.sub(rhs).sub(&expr_from_bytes(diff.as_slice())).add(
        &lt.mul(&Fe::from_u64(RANGE)),
    );
    check.is_zero()
}

proof fn lemma_bytes_sum_value(s: Seq<nat>)
    requires
        s.len() == 4,
        forall|i: int| 0 <= i < 4 ==> #[trigger] s[i] < 256,
    ensures
        bytes_sum(s, 4) == s[0] + 256 * s[1] + 65536 * s[2] + 16777216 * s[3],
{
    reveal(f_add);
    reveal(f_mul);
    let p = modulus();
    let t0 = s[0];
    let t1 = s[0] + 256 * s[1];
    let t2 = t1 + 65536 * s[2];
    let t3 = t2 + 16777216 * s[3];
    assert(pow256(0) == 1);
    vstd::arithmetic::div_mod::lemma_small_mod(256, p);
    assert(pow256(1) == 256);
    vstd::arithmetic::div_mod::lemma_small_mod(65536, p);
    assert(pow256(2) == 65536);
    vstd::arithmetic::div_mod::lemma_small_mod(16777216, p);
    assert(pow256(3) == 16777216);
    vstd::arithmetic::div_mod::lemma_small_mod(s[0], p);
    vstd::arithmetic::div_mod::lemma_small_mod(256 * s[1], p);
    vstd::arithmetic::div_mod::lemma_small_mod(65536 * s[2], p);
    vstd::arithmetic::div_mod::lemma_small_mod(16777216 * s[3], p);
    assert(bytes_sum(s, 0) == 0);
    assert(bytes_sum(s, 1) == t0);
    vstd::arithmetic::div_mod::lemma_small_mod(t1, p);
    assert(bytes_sum(s, 2) == t1);
    vstd::arithmetic::div_mod::lemma_small_mod(t2, p);
    assert(bytes_sum(s, 3) == t2);
    vstd::arithmetic::div_mod::lemma_small_mod(t3, p);
    assert(f_mul(s[3], pow256(3)) == 16777216 * s[3]);
    assert(f_add(t2, 16777216 * s[3]) == t3);
    assert(bytes_sum(s, 4) == f_add(bytes_sum(s, 3), f_mul(s[3], pow256(3))));
    assert(bytes_sum(s, 4) == t3);
}

/// For small operands the gadget's identity is an identity of integers.
proof fn lemma_gate_integer(lhs: nat, rhs: nat, lt: nat, d: nat)
    requires
        lhs < RANGE,
        rhs < RANGE,
        lt <= 1,
        d < RANGE,
    ensures
        (f_add(f_sub(f_sub(lhs, rhs), d), f_mul(lt, RANGE as nat)) == 0) == (lhs - rhs - d + lt
            * RANGE == 0),
{
    reveal(f_add);
    reveal(f_sub);
    reveal(f_mul);
    let m = modulus() as int;
    let a = lhs - rhs;
    vstd::arithmetic::div_mod::lemma_mod_add_multiples_vanish(a, m);
    assert(((lhs + modulus()) - rhs) as nat as int == m + a);
    let a_mod = f_sub(lhs, rhs) as int;
    assert(a_mod == a % m);
    vstd::arithmetic::div_mod::lemma_mod_bound(a, m);
    vstd::arithmetic::div_mod::lemma_mod_add_multiples_vanish(a_mod - d, m);
    assert(((a_mod + modulus()) - d) as nat as int == m + (a_mod - d));
    vstd::arithmetic::div_mod::lemma_small_mod(d, modulus());
    vstd::arithmetic::div_mod::lemma_sub_mod_noop(a, d as int, m);
    let b = a - d;
    assert(f_sub(f_sub(lhs, rhs), d) as int == b % m);
    let c = lt * RANGE;
    assert(c <= RANGE) by {
        if lt == 0 {
            assert(c == 0);
        } else {
            assert(c == RANGE);
        }
    }
    vstd::arithmetic::div_mod::lemma_small_mod(c as nat, modulus());
    vstd::arithmetic::div_mod::lemma_add_mod_noop(b, c as int, m);
    let v = b + c;
    assert(f_add(f_sub(f_sub(lhs, rhs), d), f_mul(lt, RANGE as nat)) as int == v % m);
    if v > 0 {
        vstd::arithmetic::div_mod::lemma_small_mod(v as nat, modulus());
    } else if v < 0 {
        vstd::arithmetic::div_mod::lemma_mod_add_multiples_vanish(v, m);
        vstd::arithmetic::div_mod::lemma_small_mod((m + v) as nat, modulus());
    }
}

/// The witness that an honest prover assigns: `lt` is whether `lhs < rhs`,
/// and the limbs encode `lhs − rhs + lt·2³²`.
pub fn lt_witness(lhs: u32, rhs: u32) -> (w: LtWitness)
    ensures
        w.lt == (lhs < rhs),
        lt_gate_holds(lhs as nat, rhs as nat, w),
{
    let lt = lhs < rhs;
    let d: u64 = if lt {
        lhs as u64 + RANGE - rhs as u64
    } else {
        (lhs - rhs) as u64
    };
    proof {
        assert((d & 0xff) < 256 && ((d >> 8) & 0xff) < 256 && ((d >> 16) & 0xff) < 256 && ((d
            >> 24) & 0xff) < 256) by (bit_vector);
    }
    let diff: [u8; 4] = [
        (d & 0xff) as u8,
        ((d >> 8) & 0xff) as u8,
        ((d >> 16) & 0xff) as u8,
        ((d >> 24) & 0xff) as u8,
    ];
    proof {
        assert(d == (d & 0xff) + 256 * ((d >> 8) & 0xff) + 65536 * ((d >> 16) & 0xff) + 16777216
            * ((d >> 24) & 0xff)) by (bit_vector)
            requires
                d < 0x1_0000_0000u64,
        ;
        let s = limbs(diff@);
        assert(diff@ =~= seq![diff[0], diff[1], diff[2], diff[3]]);
        assert(s[0] == (d & 0xff) as nat);
        assert(s[1] == ((d >> 8) & 0xff) as nat);
        assert(s[2] == ((d >> 16) & 0xff) as nat);
        assert(s[3] == ((d >> 24) & 0xff) as nat);
        lemma_bytes_sum_value(s);
        lemma_gate_integer(lhs as nat, rhs as nat, bit(lt), d as nat);
    }
    LtWitness { lt, diff }
}

/// The gadget decides `<`: on operands below 2³², every witness that meets
/// the identity has `lt` set exactly when `lhs < rhs`.
pub proof fn lemma_lt_sound(lhs: nat, rhs: nat, w: LtWitness)
    requires
        lhs < RANGE,
        rhs < RANGE,
        lt_gate_holds(lhs, rhs, w),
    ensures
        w.lt == (lhs < rhs),
{
    let s = limbs(w.diff@);
    lemma_bytes_sum_value(s);
    let d = s[0] + 256 * s[1] + 65536 * s[2] + 16777216 * s[3];
    lemma_gate_integer(lhs, rhs, bit(w.lt), d);
}

/// For clocks below 2³², the order that the Input and Output checks demand
/// is the gadget's: a witness meets the identity with `lt` set exactly when
/// the row's clock is below the next row's, and `lt_witness` gives one.
pub proof fn lemma_gadget_orders_clocks(rows: Seq<IoRow>, k: int, w: LtWitness)
    requires
        0 <= k < rows.len() - 1,
        rows[k].clk < RANGE,
        rows[k + 1].clk < RANGE,
        lt_gate_holds(rows[k].clk, rows[k + 1].clk, w),
    ensures
        clocks_ordered_at(rows, k) == w.lt,
{
    lemma_lt_sound(rows[k].clk, rows[k + 1].clk, w);
}

} // verus!
