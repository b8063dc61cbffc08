use vstd::prelude::*;
use crate::exec::{inst_effect, insts_effect, MachineView};
use crate::ir::Inst;
use crate::lower::print_int_insts;

verus! {

/// What the integer-printing instructions write for the 32-bit word `v`:
/// the hundreds, tens and ones digits of `v`, the hundreds digit shown as a
/// space when it is zero and the tens digit shown as a space when both are
/// zero, then a newline.
pub open spec fn decimal3(v: u32) -> Seq<u8> {
    let h = (v / 100) % 10;
    let t = (v / 10) % 10;
    let o = v % 10;
    seq![
        if h == 0 { 32u8 } else { (48 + h) as u8 },
        if h == 0 && t == 0 { 32u8 } else { (48 + t) as u8 },
        (48 + o) as u8,
        10u8,
    ]
}

/// The ASCII digit for `d < 10`.
pub open spec fn digit(d: int) -> u8 {
    (48 + d) as u8
}

/// `n < 1000` in decimal, right-aligned in three characters with spaces,
/// then a newline.
pub open spec fn right_aligned3(n: int) -> Seq<u8> {
    if n < 10 {
        seq![32u8, 32u8, digit(n), 10u8]
    } else if n < 100 {
        seq![32u8, digit(n / 10), digit(n % 10), 10u8]
    } else {
        seq![digit(n / 100), digit((n / 10) % 10), digit(n % 10), 10u8]
    }
}

/// Every value from 0 to 999 prints as its decimal form, right-aligned in
/// three characters, followed by a newline.
pub proof fn lemma_small_values_right_aligned(n: u32)
    requires
        n <= 999,
    ensures
        decimal3(n) == right_aligned3(n as int),
{
    assert(n < 100 ==> (n / 100) % 10 == 0);
    assert(n >= 100 ==> (n / 100) % 10 == n / 100 && n / 100 >= 1);
    assert(n < 10 ==> (n / 10) % 10 == 0);
    assert(10 <= n < 100 ==> (n / 10) % 10 == n / 10 && n / 10 >= 1);
    assert(decimal3(n) =~= right_aligned3(n as int));
}

/// A value of 1000 or more prints as its remainder modulo 1000 does.
pub proof fn lemma_wraps_modulo_1000(n: u32)
    ensures
        decimal3(n) == decimal3((n % 1000) as u32),
{
    let q = n / 1000;
    let r = n % 1000;
    assert(n == 1000 * q + r);
    assert((n / 100) % 10 == (r / 100) % 10) by (nonlinear_arith)
        requires n == 1000 * q + r, 0 <= r < 1000;
    assert((n / 10) % 10 == (r / 10) % 10) by (nonlinear_arith)
        requires n == 1000 * q + r, 0 <= r < 1000;
    assert(n % 10 == r % 10) by (nonlinear_arith)
        requires n == 1000 * q + r, 0 <= r < 1000;
    assert(decimal3(n) =~= decimal3(r as u32));
}

proof fn lemma_effect_step(data: Seq<Seq<u8>>, m: MachineView, p: Seq<Inst>, k: int)
    requires
        0 <= k < p.len(),
    ensures
        insts_effect(data, m, p.subrange(0, k + 1)) == ({
            let (m2, ok) = insts_effect(data, m, p.subrange(0, k));
            if !ok {
                (m2, false)
            } else {
                match inst_effect(data, m2, p[k]) {
                    Some(m3) => (m3, true),
                    None => (m2, false),
                }
            }
        }),
{
    assert(p.subrange(0, k + 1).drop_last() =~= p.subrange(0, k));
}

proof fn lemma_and_of_flags(a: u32, b: u32)
    requires
        a == 0 || a == 1,
        b == 0 || b == 1,
    ensures
        (a & b) == (if a == 1 && b == 1 { 1u32 } else { 0u32 }),
{
    assert(a == 0 || a == 1 ==> b == 0 || b == 1 ==> (a & b) == (if a == 1 && b == 1 { 1u32 } else { 0u32 }))
        by (bit_vector);
}

/// What holds after the first `k` of the printing instructions.
spec fn print_prefix_ok(data: Seq<Seq<u8>>, m: MachineView, v: usize, base: usize, k: int) -> bool {
    let p = print_int_insts(v, base);
    let x = m.regs[v as int];
    let h = ((x / 100) as u32 % 10) as u32;
    let t = ((x / 10) as u32 % 10) as u32;
    let o = (x % 10) as u32;
    let hz: u32 = if h == 0 { 1 } else { 0 };
    let tz: u32 = if t == 0 { 1 } else { 0 };
    let e = insts_effect(data, m, p.subrange(0, k));
    let r = e.0;
    &&& e.1
    &&& r.regs.len() == m.regs.len()
    &&& r.slots == m.slots
    &&& forall|j: int| 0 <= j < base ==> #[trigger] r.regs[j] == m.regs[j]
    &&& r.regs[v as int] == x
    &&& k > 0 ==> r.regs[base as int] == 32
    &&& k > 1 ==> r.regs[base + 1] == 10
    &&& k > 2 ==> r.regs[base + 2] == x / 100
    &&& k > 3 ==> r.regs[base + 3] == h
    &&& k > 4 ==> r.regs[base + 4] == h + 48
    &&& k > 5 ==> r.regs[base + 5] == hz
    &&& k > 6 ==> r.regs[base + 6] == if hz != 0 { 32 } else { h + 48 }
    &&& k > 8 ==> r.regs[base + 7] == x / 10
    &&& k > 9 ==> r.regs[base + 8] == t
    &&& k > 10 ==> r.regs[base + 9] == t + 48
    &&& k > 11 ==> r.regs[base + 10] == tz
    &&& k > 12 ==> r.regs[base + 11] == (hz & tz)
    &&& k > 13 ==> r.regs[base + 12] == if (hz & tz) != 0 { 32 } else { t + 48 }
    &&& k > 15 ==> r.regs[base + 13] == o
    &&& k > 16 ==> r.regs[base + 14] == o + 48
    &&& r.out == m.out + decimal3(x).subrange(0,
        if k <= 7 { 0 } else if k <= 14 { 1 } else if k <= 17 { 2 } else if k == 18 { 3 } else { 4 })
}

#[verifier::spinoff_prover]
proof fn lemma_print_step_1(data: Seq<Seq<u8>>, m: MachineView, v: usize, base: usize, k: int)
    requires
        v < base,
        base + 15 <= m.regs.len(),
        base + 15 <= usize::MAX,
        k == 1,
        print_prefix_ok(data, m, v, base, k - 1),
    ensures
        print_prefix_ok(data, m, v, base, k),
{
    let p = print_int_insts(v, base);
    lemma_effect_step(data, m, p, k - 1);
    assert(p[0] == Inst::Iconst { dst: base, imm: 32 });
}

#[verifier::spinoff_prover]
proof fn lemma_print_step_2(data: Seq<Seq<u8>>, m: MachineView, v: usize, base: usize, k: int)
    requires
        v < base,
        base + 15 <= m.regs.len(),
        base + 15 <= usize::MAX,
        k == 2,
        print_prefix_ok(data, m, v, base, k - 1),
    ensures
        print_prefix_ok(data, m, v, base, k),
{
    let p = print_int_insts(v, base);
    lemma_effect_step(data, m, p, k - 1);
    assert(p[1] == Inst::Iconst { dst: (base + 1) as usize, imm: 10 });
}

#[verifier::spinoff_prover]
proof fn lemma_print_step_3(data: Seq<Seq<u8>>, m: MachineView, v: usize, base: usize, k: int)
    requires
        v < base,
        base + 15 <= m.regs.len(),
        base + 15 <= usize::MAX,
        k == 3,
        print_prefix_ok(data, m, v, base, k - 1),
    ensures
        print_prefix_ok(data, m, v, base, k),
{
    let p = print_int_insts(v, base);
    lemma_effect_step(data, m, p, k - 1);
    assert(p[2] == Inst::UdivImm { dst: (base + 2) as usize, arg: v, imm: 100 });
}

#[verifier::spinoff_prover]
proof fn lemma_print_step_4(data: Seq<Seq<u8>>, m: MachineView, v: usize, base: usize, k: int)
    requires
        v < base,
        base + 15 <= m.regs.len(),
        base + 15 <= usize::MAX,
        k == 4,
        print_prefix_ok(data, m, v, base, k - 1),
    ensures
        print_prefix_ok(data, m, v, base, k),
{
    let p = print_int_insts(v, base);
    lemma_effect_step(data, m, p, k - 1);
    assert(p[3] == Inst::UremImm { dst: (base + 3) as usize, arg: (base + 2) as usize, imm: 10 });
}

#[verifier::spinoff_prover]
proof fn lemma_print_step_5(data: Seq<Seq<u8>>, m: MachineView, v: usize, base: usize, k: int)
    requires
        v < base,
        base + 15 <= m.regs.len(),
        base + 15 <= usize::MAX,
        k == 5,
        print_prefix_ok(data, m, v, base, k - 1),
    ensures
        print_prefix_ok(data, m, v, base, k),
{
    let p = print_int_insts(v, base);
    lemma_effect_step(data, m, p, k - 1);
    assert(p[4] == Inst::IaddImm { dst: (base + 4) as usize, arg: (base + 3) as usize, imm: 48 });
}

#[verifier::spinoff_prover]
proof fn lemma_print_step_6(data: Seq<Seq<u8>>, m: MachineView, v: usize, base: usize, k: int)
    requires
        v < base,
        base + 15 <= m.regs.len(),
        base + 15 <= usize::MAX,
        k == 6,
        print_prefix_ok(data, m, v, base, k - 1),
    ensures
        print_prefix_ok(data, m, v, base, k),
{
    let p = print_int_insts(v, base);
    lemma_effect_step(data, m, p, k - 1);
    assert(p[5] == Inst::IcmpEqImm { dst: (base + 5) as usize, arg: (base + 3) as usize, imm: 0 });
}

#[verifier::spinoff_prover]
proof fn lemma_print_step_7(data: Seq<Seq<u8>>, m: MachineView, v: usize, base: usize, k: int)
    requires
        v < base,
        base + 15 <= m.regs.len(),
        base + 15 <= usize::MAX,
        k == 7,
        print_prefix_ok(data, m, v, base, k - 1),
    ensures
        print_prefix_ok(data, m, v, base, k),
{
    let p = print_int_insts(v, base);
    lemma_effect_step(data, m, p, k - 1);
    assert(p[6] == Inst::Select { dst: (base + 6) as usize, cond: (base + 5) as usize, on_true: base, on_false: (base + 4) as usize });
}

#[verifier::spinoff_prover]
proof fn lemma_print_step_8(data: Seq<Seq<u8>>, m: MachineView, v: usize, base: usize, k: int)
    requires
        v < base,
        base + 15 <= m.regs.len(),
        base + 15 <= usize::MAX,
        k == 8,
        print_prefix_ok(data, m, v, base, k - 1),
    ensures
        print_prefix_ok(data, m, v, base, k),
{
    let p = print_int_insts(v, base);
    let x = m.regs[v as int];
    let h = ((x / 100) as u32 % 10) as u32;
    let hz: u32 = if h == 0 { 1 } else { 0 };
    lemma_effect_step(data, m, p, k - 1);
    let r2 = insts_effect(data, m, p.subrange(0, k)).0;
    assert(p[7] == Inst::Putchar { arg: (base + 6) as usize });
    let r = insts_effect(data, m, p.subrange(0, 7)).0;
    let c = r.regs[base + 6];
    assert(c == if hz != 0 { 32 } else { h + 48 });
    assert(r2.out == r.out.push((c % 256) as u8));
    assert(h < 10);
    assert((c % 256) as u8 == decimal3(x)[0]);
    assert(decimal3(x).subrange(0, 1) =~= decimal3(x).subrange(0, 0).push(
        if h == 0 { 32u8 } else { (48 + h) as u8 }));
    assert(r2.out =~= m.out + decimal3(x).subrange(0, 1));
}

#[verifier::spinoff_prover]
proof fn lemma_print_step_9(data: Seq<Seq<u8>>, m: MachineView, v: usize, base: usize, k: int)
    requires
        v < base,
        base + 15 <= m.regs.len(),
        base + 15 <= usize::MAX,
        k == 9,
        print_prefix_ok(data, m, v, base, k - 1),
    ensures
        print_prefix_ok(data, m, v, base, k),
{
    let p = print_int_insts(v, base);
    lemma_effect_step(data, m, p, k - 1);
    assert(p[8] == Inst::UdivImm { dst: (base + 7) as usize, arg: v, imm: 10 });
}

#[verifier::spinoff_prover]
proof fn lemma_print_step_10(data: Seq<Seq<u8>>, m: MachineView, v: usize, base: usize, k: int)
    requires
        v < base,
        base + 15 <= m.regs.len(),
        base + 15 <= usize::MAX,
        k == 10,
        print_prefix_ok(data, m, v, base, k - 1),
    ensures
        print_prefix_ok(data, m, v, base, k),
{
    let p = print_int_insts(v, base);
    lemma_effect_step(data, m, p, k - 1);
    assert(p[9] == Inst::UremImm { dst: (base + 8) as usize, arg: (base + 7) as usize, imm: 10 });
}

#[verifier::spinoff_prover]
proof fn lemma_print_step_11(data: Seq<Seq<u8>>, m: MachineView, v: usize, base: usize, k: int)
    requires
        v < base,
        base + 15 <= m.regs.len(),
        base + 15 <= usize::MAX,
        k == 11,
        print_prefix_ok(data, m, v, base, k - 1),
    ensures
        print_prefix_ok(data, m, v, base, k),
{
    let p = print_int_insts(v, base);
    lemma_effect_step(data, m, p, k - 1);
    assert(p[10] == Inst::IaddImm { dst: (base + 9) as usize, arg: (base + 8) as usize, imm: 48 });
}

#[verifier::spinoff_prover]
proof fn lemma_print_step_12(data: Seq<Seq<u8>>, m: MachineView, v: usize, base: usize, k: int)
    requires
        v < base,
        base + 15 <= m.regs.len(),
        base + 15 <= usize::MAX,
        k == 12,
        print_prefix_ok(data, m, v, base, k - 1),
    ensures
        print_prefix_ok(data, m, v, base, k),
{
    let p = print_int_insts(v, base);
    lemma_effect_step(data, m, p, k - 1);
    assert(p[11] == Inst::IcmpEqImm { dst: (base + 10) as usize, arg: (base + 8) as usize, imm: 0 });
}

#[verifier::spinoff_prover]
proof fn lemma_print_step_13(data: Seq<Seq<u8>>, m: MachineView, v: usize, base: usize, k: int)
    requires
        v < base,
        base + 15 <= m.regs.len(),
        base + 15 <= usize::MAX,
        k == 13,
        print_prefix_ok(data, m, v, base, k - 1),
    ensures
        print_prefix_ok(data, m, v, base, k),
{
    let p = print_int_insts(v, base);
    let x = m.regs[v as int];
    let h = ((x / 100) as u32 % 10) as u32;
    let t = ((x / 10) as u32 % 10) as u32;
    let hz: u32 = if h == 0 { 1 } else { 0 };
    let tz: u32 = if t == 0 { 1 } else { 0 };
    lemma_effect_step(data, m, p, k - 1);
    lemma_and_of_flags(hz, tz);
    assert(p[12] == Inst::Band { dst: (base + 11) as usize, lhs: (base + 5) as usize, rhs: (base + 10) as usize });
}

#[verifier::spinoff_prover]
proof fn lemma_print_step_14(data: Seq<Seq<u8>>, m: MachineView, v: usize, base: usize, k: int)
    requires
        v < base,
        base + 15 <= m.regs.len(),
        base + 15 <= usize::MAX,
        k == 14,
        print_prefix_ok(data, m, v, base, k - 1),
    ensures
        print_prefix_ok(data, m, v, base, k),
{
    let p = print_int_insts(v, base);
    lemma_effect_step(data, m, p, k - 1);
    assert(p[13] == Inst::Select { dst: (base + 12) as usize, cond: (base + 11) as usize, on_true: base, on_false: (base + 9) as usize });
}

#[verifier::spinoff_prover]
proof fn lemma_print_step_15(data: Seq<Seq<u8>>, m: MachineView, v: usize, base: usize, k: int)
    requires
        v < base,
        base + 15 <= m.regs.len(),
        base + 15 <= usize::MAX,
        k == 15,
        print_prefix_ok(data, m, v, base, k - 1),
    ensures
        print_prefix_ok(data, m, v, base, k),
{
    let p = print_int_insts(v, base);
    let x = m.regs[v as int];
    let h = ((x / 100) as u32 % 10) as u32;
    let t = ((x / 10) as u32 % 10) as u32;
    let hz: u32 = if h == 0 { 1 } else { 0 };
    let tz: u32 = if t == 0 { 1 } else { 0 };
    lemma_effect_step(data, m, p, k - 1);
    lemma_and_of_flags(hz, tz);
    let r2 = insts_effect(data, m, p.subrange(0, k)).0;
    assert(p[14] == Inst::Putchar { arg: (base + 12) as usize });
    assert(decimal3(x).subrange(0, 2) =~= decimal3(x).subrange(0, 1).push(
        if h == 0 && t == 0 { 32u8 } else { (48 + t) as u8 }));
    assert(r2.out =~= m.out + decimal3(x).subrange(0, 2));
}

#[verifier::spinoff_prover]
proof fn lemma_print_step_16(data: Seq<Seq<u8>>, m: MachineView, v: usize, base: usize, k: int)
    requires
        v < base,
        base + 15 <= m.regs.len(),
        base + 15 <= usize::MAX,
        k == 16,
        print_prefix_ok(data, m, v, base, k - 1),
    ensures
        print_prefix_ok(data, m, v, base, k),
{
    let p = print_int_insts(v, base);
    lemma_effect_step(data, m, p, k - 1);
    assert(p[15] == Inst::UremImm { dst: (base + 13) as usize, arg: v, imm: 10 });
}

#[verifier::spinoff_prover]
proof fn lemma_print_step_17(data: Seq<Seq<u8>>, m: MachineView, v: usize, base: usize, k: int)
    requires
        v < base,
        base + 15 <= m.regs.len(),
        base + 15 <= usize::MAX,
        k == 17,
        print_prefix_ok(data, m, v, base, k - 1),
    ensures
        print_prefix_ok(data, m, v, base, k),
{
    let p = print_int_insts(v, base);
    lemma_effect_step(data, m, p, k - 1);
    assert(p[16] == Inst::IaddImm { dst: (base + 14) as usize, arg: (base + 13) as usize, imm: 48 });
}

#[verifier::spinoff_prover]
proof fn lemma_print_step_18(data: Seq<Seq<u8>>, m: MachineView, v: usize, base: usize, k: int)
    requires
        v < base,
        base + 15 <= m.regs.len(),
        base + 15 <= usize::MAX,
        k == 18,
        print_prefix_ok(data, m, v, base, k - 1),
    ensures
        print_prefix_ok(data, m, v, base, k),
{
    let p = print_int_insts(v, base);
    let x = m.regs[v as int];
    let o = (x % 10) as u32;
    lemma_effect_step(data, m, p, k - 1);
    let r2 = insts_effect(data, m, p.subrange(0, k)).0;
    assert(p[17] == Inst::Putchar { arg: (base + 14) as usize });
    assert(decimal3(x).subrange(0, 3) =~= decimal3(x).subrange(0, 2).push((48 + o) as u8));
    assert(r2.out =~= m.out + decimal3(x).subrange(0, 3));
}

#[verifier::spinoff_prover]
proof fn lemma_print_step_19(data: Seq<Seq<u8>>, m: MachineView, v: usize, base: usize, k: int)
    requires
        v < base,
        base + 15 <= m.regs.len(),
        base + 15 <= usize::MAX,
        k == 19,
        print_prefix_ok(data, m, v, base, k - 1),
    ensures
        print_prefix_ok(data, m, v, base, k),
{
    let p = print_int_insts(v, base);
    let x = m.regs[v as int];
    lemma_effect_step(data, m, p, k - 1);
    let r2 = insts_effect(data, m, p.subrange(0, k)).0;
    assert(p[18] == Inst::Putchar { arg: (base + 1) as usize });
    assert(decimal3(x).subrange(0, 4) =~= decimal3(x).subrange(0, 3).push(10u8));
    assert(r2.out =~= m.out + decimal3(x).subrange(0, 4));
}

/// One more printing instruction keeps `print_prefix_ok`.
proof fn lemma_print_step(data: Seq<Seq<u8>>, m: MachineView, v: usize, base: usize, k: int)
    requires
        v < base,
        base + 15 <= m.regs.len(),
        base + 15 <= usize::MAX,
        1 <= k <= 19,
        print_prefix_ok(data, m, v, base, k - 1),
    ensures
        print_prefix_ok(data, m, v, base, k),
{
    if k == 1 {
        lemma_print_step_1(data, m, v, base, k);
    } else if k == 2 {
        lemma_print_step_2(data, m, v, base, k);
    } else if k == 3 {
        lemma_print_step_3(data, m, v, base, k);
    } else if k == 4 {
        lemma_print_step_4(data, m, v, base, k);
    } else if k == 5 {
        lemma_print_step_5(data, m, v, base, k);
    } else if k == 6 {
        lemma_print_step_6(data, m, v, base, k);
    } else if k == 7 {
        lemma_print_step_7(data, m, v, base, k);
    } else if k == 8 {
        lemma_print_step_8(data, m, v, base, k);
    } else if k == 9 {
        lemma_print_step_9(data, m, v, base, k);
    } else if k == 10 {
        lemma_print_step_10(data, m, v, base, k);
    } else if k == 11 {
        lemma_print_step_11(data, m, v, base, k);
    } else if k == 12 {
        lemma_print_step_12(data, m, v, base, k);
    } else if k == 13 {
        lemma_print_step_13(data, m, v, base, k);
    } else if k == 14 {
        lemma_print_step_14(data, m, v, base, k);
    } else if k == 15 {
        lemma_print_step_15(data, m, v, base, k);
    } else if k == 16 {
        lemma_print_step_16(data, m, v, base, k);
    } else if k == 17 {
        lemma_print_step_17(data, m, v, base, k);
    } else if k == 18 {
        lemma_print_step_18(data, m, v, base, k);
    } else if k == 19 {
        lemma_print_step_19(data, m, v, base, k);
    }
}

proof fn lemma_print_prefix(data: Seq<Seq<u8>>, m: MachineView, v: usize, base: usize, k: int)
    requires
        v < base,
        base + 15 <= m.regs.len(),
        base + 15 <= usize::MAX,
        0 <= k <= 19,
    ensures
        print_prefix_ok(data, m, v, base, k),
    decreases k,
{
    if k == 0 {
        let p = print_int_insts(v, base);
        let x = m.regs[v as int];
        assert(p.subrange(0, 0) =~= Seq::<Inst>::empty());
        assert(decimal3(x).subrange(0, 0) =~= Seq::<u8>::empty());
        assert(m.out + Seq::<u8>::empty() =~= m.out);
    } else {
        lemma_print_prefix(data, m, v, base, k - 1);
        lemma_print_step(data, m, v, base, k);
    }
}

/// The instructions that lowering emits to print a value run without
/// trapping and write `decimal3` of the value.
pub proof fn lemma_print_int_writes_decimal3(data: Seq<Seq<u8>>, m: MachineView, v: usize, base: usize)
    requires
        v < base,
        base + 15 <= m.regs.len(),
        base + 15 <= usize::MAX,
    ensures
        insts_effect(data, m, print_int_insts(v, base)).1,
        insts_effect(data, m, print_int_insts(v, base)).0.out == m.out + decimal3(m.regs[v as int]),
        insts_effect(data, m, print_int_insts(v, base)).0.slots == m.slots,
        insts_effect(data, m, print_int_insts(v, base)).0.regs.len() == m.regs.len(),
        forall|j: int| 0 <= j < base ==> #[trigger] insts_effect(data, m, print_int_insts(v, base)).0.regs[j] == m.regs[j],
{
    let p = print_int_insts(v, base);
    lemma_print_prefix(data, m, v, base, 19);
    assert(p.subrange(0, 19) =~= p);
    assert(decimal3(m.regs[v as int]).subrange(0, 4) =~= decimal3(m.regs[v as int]));
}

} // verus!
