use vstd::prelude::*;
use crate::ir::{Function, Inst, Terminator};
use crate::lower::binop_inst;

verus! {

/// The number of distinct 32-bit words.
pub open spec fn word() -> int {
    0x1_0000_0000
}

/// `x` reduced to 32 bits.
pub open spec fn wrap32(x: int) -> u32 {
    (x % word()) as u32
}

/// The signed reading of a 32-bit word.
pub open spec fn signed32(a: u32) -> int {
    if a < 0x8000_0000 { a as int } else { a - word() }
}

/// `k` is the index of the first NUL byte of `s`.
pub open spec fn is_first_nul(s: Seq<u8>, k: int) -> bool {
    0 <= k < s.len() && s[k] == 0 && forall|j: int| 0 <= j < k ==> s[j] != 0
}

/// The bytes of a data symbol up to its first NUL byte, or all of them.
pub open spec fn c_string(s: Seq<u8>) -> Seq<u8> {
    if exists|k: int| is_first_nul(s, k) {
        s.subrange(0, choose|k: int| is_first_nul(s, k))
    } else {
        s
    }
}

/// What the byte-string output routine writes for `s`: its bytes up to the
/// first NUL, then a newline.
pub open spec fn puts_output(s: Seq<u8>) -> Seq<u8> {
    c_string(s).push(10u8)
}

/// The machine state between instructions.
pub struct Machine {
    pub regs: Vec<u32>,
    pub slots: Vec<u32>,
    pub out: Vec<u8>,
}

pub struct MachineView {
    pub regs: Seq<u32>,
    pub slots: Seq<u32>,
    pub out: Seq<u8>,
}

impl View for Machine {
    type V = MachineView;

    open spec fn view(&self) -> MachineView {
        MachineView { regs: self.regs@, slots: self.slots@, out: self.out@ }
    }
}

/// The effect of one instruction, or `None` where it traps.
pub open spec fn inst_effect(data: Seq<Seq<u8>>, m: MachineView, i: Inst) -> Option<MachineView> {
    let r = m.regs;
    match i {
        Inst::Iconst { dst, imm } => Some(MachineView { regs: r.update(dst as int, wrap32(imm as int)), ..m }),
        Inst::UseVar { dst, slot } => Some(MachineView { regs: r.update(dst as int, m.slots[slot as int]), ..m }),
        Inst::DefVar { slot, src } => Some(MachineView { slots: m.slots.update(slot as int, r[src as int]), ..m }),
        Inst::Band { dst, lhs, rhs } => Some(MachineView { regs: r.update(dst as int, r[lhs as int] & r[rhs as int]), ..m }),
        Inst::IcmpEq { dst, lhs, rhs } =>
            Some(MachineView { regs: r.update(dst as int, if r[lhs as int] == r[rhs as int] { 1u32 } else { 0u32 }), ..m }),
        Inst::Urem { dst, lhs, rhs } =>
            if r[rhs as int] == 0 {
                None
            } else {
                Some(MachineView { regs: r.update(dst as int, (r[lhs as int] % r[rhs as int]) as u32), ..m })
            },
        Inst::UdivImm { dst, arg, imm } => Some(MachineView { regs: r.update(dst as int, (r[arg as int] / imm) as u32), ..m }),
        Inst::UremImm { dst, arg, imm } => Some(MachineView { regs: r.update(dst as int, (r[arg as int] % imm) as u32), ..m }),
        Inst::IaddImm { dst, arg, imm } => Some(MachineView { regs: r.update(dst as int, wrap32(r[arg as int] + imm)), ..m }),
        Inst::IcmpEqImm { dst, arg, imm } =>
            Some(MachineView { regs: r.update(dst as int, if r[arg as int] == imm { 1u32 } else { 0u32 }), ..m }),
        Inst::IcmpSleImm { dst, arg, imm } =>
            Some(MachineView {
                regs: r.update(dst as int,
                    if signed32(r[arg as int]) <= signed32(wrap32(imm as int)) { 1u32 } else { 0u32 }),
                ..m
            }),
        Inst::Select { dst, cond, on_true, on_false } =>
            Some(MachineView {
                regs: r.update(dst as int, if r[cond as int] != 0 { r[on_true as int] } else { r[on_false as int] }),
                ..m
            }),
        Inst::SymbolValue { dst, data: d } => Some(MachineView { regs: r.update(dst as int, wrap32(d as int)), ..m }),
        Inst::Puts { arg } =>
            if r[arg as int] < data.len() {
                Some(MachineView { out: m.out + puts_output(data[r[arg as int] as int]), ..m })
            } else {
                None
            },
        Inst::Putchar { arg } => Some(MachineView { out: m.out.push((r[arg as int] % 256) as u8), ..m }),
    }
}

/// The state after the instructions `insts`, run from `m` until one traps,
/// and whether all of them ran.
pub open spec fn insts_effect(data: Seq<Seq<u8>>, m: MachineView, insts: Seq<Inst>) -> (MachineView, bool)
    decreases insts.len(),
{
    if insts.len() == 0 {
        (m, true)
    } else {
        let (m2, ok) = insts_effect(data, m, insts.drop_last());
        if !ok {
            (m2, false)
        } else {
            match inst_effect(data, m2, insts.last()) {
                Some(m3) => (m3, true),
                None => (m2, false),
            }
        }
    }
}

/// How a run ended.
#[derive(Clone, Copy, Debug, PartialEq, Eq, Structural)]
pub enum Status {
    /// The function returned.
    Finished,
    /// An instruction trapped (a remainder by zero).
    Trapped,
    /// The run took more blocks than it was allowed.
    OutOfFuel,
}

/// The contents of the data table of `f`.
pub open spec fn data_of(f: Function) -> Seq<Seq<u8>> {
    Seq::new(f.data@.len(), |i: int| f.data@[i]@)
}

/// Runs `f` from the start of block `b` in state `m`, entering at most
/// `fuel` blocks; gives how the run ended and what it wrote.
pub open spec fn run(f: Function, b: int, m: MachineView, fuel: nat) -> (Status, Seq<u8>)
    decreases fuel,
{
    if fuel == 0 {
        (Status::OutOfFuel, m.out)
    } else {
        let (m2, ok) = insts_effect(data_of(f), m, f.blocks@[b].insts@);
        if !ok {
            (Status::Trapped, m2.out)
        } else {
            match f.blocks@[b].term {
                Terminator::Return => (Status::Finished, m2.out),
                Terminator::Jump { target } => run(f, target as int, m2, (fuel - 1) as nat),
                Terminator::Brz { cond, if_zero, if_nonzero } =>
                    run(f, if m2.regs[cond as int] == 0 { if_zero as int } else { if_nonzero as int },
                        m2, (fuel - 1) as nat),
                Terminator::Open => (Status::Trapped, m2.out),
            }
        }
    }
}

/// The state in which a function starts: every value and slot zero, no
/// output.
pub open spec fn initial(f: Function) -> MachineView {
    MachineView {
        regs: Seq::new(f.num_values as nat, |i: int| 0u32),
        slots: Seq::new(f.num_slots as nat, |i: int| 0u32),
        out: Seq::empty(),
    }
}

/// `x` reduced to 32 bits.
fn wrap_i64(x: i64) -> (r: u32)
    ensures
        r == wrap32(x as int),
{
    let m: i64 = 0x1_0000_0000;
    let r = ((x % m) + m) % m;
    assert(r == (x as int) % word());
    r as u32
}

/// Appends what the byte-string output routine writes for `s`.
fn puts(out: &mut Vec<u8>, s: &Vec<u8>)
    ensures
        final(out)@ == old(out)@ + puts_output(s@),
{
    let mut k: usize = 0;
    while k < s.len() && s[k] != 0
        invariant
            k <= s@.len(),
            out@ == old(out)@,
            forall|j: int| 0 <= j < k ==> s@[j] != 0,
        decreases s@.len() - k,
    {
        k = k + 1;
    }
    let ghost start = out@;
    let mut j: usize = 0;
    while j < k
        invariant
            j <= k <= s@.len(),
            out@ == start + s@.subrange(0, j as int),
        decreases k - j,
    {
        out.push(s[j]);
        assert(s@.subrange(0, j + 1) =~= s@.subrange(0, j as int).push(s@[j as int]));
        j = j + 1;
    }
    out.push(10u8);
    proof {
        if k < s@.len() {
            assert(is_first_nul(s@, k as int));
            let c = choose|c: int| is_first_nul(s@, c);
            if c < k {
                assert(s@[c] != 0);
            } else if c > k {
                assert(s@[k as int] != 0);
            }
        } else {
            assert(s@.subrange(0, k as int) =~= s@);
            if exists|c: int| is_first_nul(s@, c) {
                let c = choose|c: int| is_first_nul(s@, c);
                assert(s@[c] != 0);
            }
        }
    }
    assert(out@ =~= old(out)@ + puts_output(s@));
}

impl Machine {
    /// Runs one instruction; `false` where it traps, leaving the state as it
    /// was.
    pub fn step(&mut self, data: &Vec<Vec<u8>>, i: Inst) -> (r: bool)
        requires
            crate::ir::inst_in_bounds(i, old(self).regs@.len(), old(self).slots@.len(), data@.len()),
        ensures
            final(self).regs@.len() == old(self).regs@.len(),
            final(self).slots@.len() == old(self).slots@.len(),
            match inst_effect(Seq::new(data@.len(), |k: int| data@[k]@), old(self)@, i) {
                Some(m2) => r && final(self)@ == m2,
                None => !r && final(self)@ == old(self)@,
            },
    {
        let ghost m = self@;
        match i {
            Inst::Iconst { dst, imm } => {
                self.regs.set(dst, wrap_i64(imm));
            },
            Inst::UseVar { dst, slot } => {
                let x = self.slots[slot];
                self.regs.set(dst, x);
            },
            Inst::DefVar { slot, src } => {
                let x = self.regs[src];
                self.slots.set(slot, x);
            },
            Inst::Band { dst, lhs, rhs } => {
                let x = self.regs[lhs] & self.regs[rhs];
                self.regs.set(dst, x);
            },
            Inst::IcmpEq { dst, lhs, rhs } => {
                let x: u32 = if self.regs[lhs] == self.regs[rhs] { 1 } else { 0 };
                self.regs.set(dst, x);
            },
            Inst::Urem { dst, lhs, rhs } => {
                if self.regs[rhs] == 0 {
                    return false;
                }
                let x = self.regs[lhs] % self.regs[rhs];
                self.regs.set(dst, x);
            },
            Inst::UdivImm { dst, arg, imm } => {
                let x = self.regs[arg] / imm;
                self.regs.set(dst, x);
            },
            Inst::UremImm { dst, arg, imm } => {
                let x = self.regs[arg] % imm;
                self.regs.set(dst, x);
            },
            Inst::IaddImm { dst, arg, imm } => {
                let x = wrap_i64(self.regs[arg] as i64 + imm as i64);
                self.regs.set(dst, x);
            },
            Inst::IcmpEqImm { dst, arg, imm } => {
                let x: u32 = if self.regs[arg] == imm { 1 } else { 0 };
                self.regs.set(dst, x);
            },
            Inst::IcmpSleImm { dst, arg, imm } => {
                let a = self.regs[arg];
                let sa: i64 = if a < 0x8000_0000 { a as i64 } else { a as i64 - 0x1_0000_0000 };
                let w = wrap_i64(imm);
                let sw: i64 = if w < 0x8000_0000 { w as i64 } else { w as i64 - 0x1_0000_0000 };
                let x: u32 = if sa <= sw { 1 } else { 0 };
                self.regs.set(dst, x);
            },
            Inst::Select { dst, cond, on_true, on_false } => {
                let x = if self.regs[cond] != 0 { self.regs[on_true] } else { self.regs[on_false] };
                self.regs.set(dst, x);
            },
            Inst::SymbolValue { dst, data: d } => {
                let x = wrap_i64((d as u64 % 0x1_0000_0000) as i64);
                assert(wrap32(d as int) == wrap32((d as u64 % 0x1_0000_0000) as int));
                self.regs.set(dst, x);
            },
            Inst::Puts { arg } => {
                let a = self.regs[arg] as usize;
                if a >= data.len() {
                    return false;
                }
                puts(&mut self.out, &data[a]);
            },
            Inst::Putchar { arg } => {
                let x = (self.regs[arg] % 256) as u8;
                self.out.push(x);
            },
        }
        proof {
            assert(self.regs@ =~= self@.regs);
        }
        true
    }
}

/// Once an instruction has trapped, the instructions after it do not run.
proof fn lemma_trap_stays(data: Seq<Seq<u8>>, m: MachineView, insts: Seq<Inst>, k: int)
    requires
        0 <= k <= insts.len(),
        !insts_effect(data, m, insts.subrange(0, k)).1,
    ensures
        insts_effect(data, m, insts) == insts_effect(data, m, insts.subrange(0, k)),
    decreases insts.len() - k,
{
    if k < insts.len() {
        assert(insts.drop_last().subrange(0, k) =~= insts.subrange(0, k));
        lemma_trap_stays(data, m, insts.drop_last(), k);
    } else {
        assert(insts.subrange(0, k) =~= insts);
    }
}

/// `n` zero words.
fn zeros(n: usize) -> (v: Vec<u32>)
    ensures
        v@ == Seq::new(n as nat, |i: int| 0u32),
{
    let mut v: Vec<u32> = Vec::new();
    while v.len() < n
        invariant
            v@.len() <= n,
            forall|i: int| 0 <= i < v@.len() ==> v@[i] == 0u32,
        decreases n - v@.len(),
    {
        v.push(0u32);
    }
    assert(v@ =~= Seq::new(n as nat, |i: int| 0u32));
    v
}

/// Runs `f` from its entry block, entering at most `fuel` blocks, and
/// returns how the run ended with the bytes it wrote.
pub fn execute(f: &Function, fuel: u64) -> (r: (Status, Vec<u8>))
    requires
        f.wf(),
    ensures
        (r.0, r.1@) == run(*f, 0, initial(*f), fuel as nat),
{
    let mut m = Machine { regs: zeros(f.num_values), slots: zeros(f.num_slots), out: Vec::new() };
    assert(m@ == initial(*f));
    let mut b: usize = 0;
    let mut left: u64 = fuel;
    loop
        invariant
            f.wf(),
            b < f.blocks@.len(),
            m.regs@.len() == f.num_values,
            m.slots@.len() == f.num_slots,
            run(*f, 0, initial(*f), fuel as nat) == run(*f, b as int, m@, left as nat),
        decreases left,
    {
        if left == 0 {
            return (Status::OutOfFuel, m.out);
        }
        let block = &f.blocks[b];
        assert(crate::ir::block_in_bounds(*block, f.num_values as nat, f.num_slots as nat,
            f.data@.len(), f.blocks@.len()));
        let ghost m0 = m@;
        let mut k: usize = 0;
        while k < block.insts.len()
            invariant
                k <= block.insts@.len(),
                left > 0,
                b < f.blocks@.len(),
                *block == f.blocks@[b as int],
                run(*f, 0, initial(*f), fuel as nat) == run(*f, b as int, m0, left as nat),
                crate::ir::block_in_bounds(*block, f.num_values as nat, f.num_slots as nat,
                    f.data@.len(), f.blocks@.len()),
                m.regs@.len() == f.num_values,
                m.slots@.len() == f.num_slots,
                insts_effect(data_of(*f), m0, block.insts@.subrange(0, k as int)) == (m@, true),
            decreases block.insts@.len() - k,
        {
            let i = block.insts[k];
            let ghost before = m@;
            assert(block.insts@.subrange(0, k + 1).drop_last() =~= block.insts@.subrange(0, k as int));
            let ok = m.step(&f.data, i);
            if !ok {
                proof {
                    assert(block.insts@.subrange(0, k + 1).last() == i);
                    assert(data_of(*f) =~= Seq::new(f.data@.len(), |j: int| f.data@[j]@));
                    assert(!insts_effect(data_of(*f), m0, block.insts@.subrange(0, k + 1)).1);
                    lemma_trap_stays(data_of(*f), m0, block.insts@, k + 1);
                }
                return (Status::Trapped, m.out);
            }
            k = k + 1;
        }
        assert(block.insts@.subrange(0, k as int) =~= block.insts@);
        match block.term {
            Terminator::Return => {
                return (Status::Finished, m.out);
            },
            Terminator::Jump { target } => {
                b = target;
            },
            Terminator::Brz { cond, if_zero, if_nonzero } => {
                b = if m.regs[cond] == 0 { if_zero } else { if_nonzero };
            },
            Terminator::Open => {
                return (Status::Trapped, m.out);
            },
        }
        left = left - 1;
    }
}

/// `&&` is the bitwise and of its raw operands, `==` gives 1 or 0, and `%`
/// is the unsigned remainder, which traps on a zero divisor.
pub proof fn lemma_operator_semantics(data: Seq<Seq<u8>>, m: MachineView, dst: usize, l: usize, r: usize)
    ensures
        inst_effect(data, m, binop_inst("&&"@, dst, l, r))
            == Some(MachineView { regs: m.regs.update(dst as int, m.regs[l as int] & m.regs[r as int]), ..m }),
        inst_effect(data, m, binop_inst("=="@, dst, l, r))
            == Some(MachineView {
                regs: m.regs.update(dst as int, if m.regs[l as int] == m.regs[r as int] { 1u32 } else { 0u32 }),
                ..m
            }),
        m.regs[r as int] != 0 ==> inst_effect(data, m, binop_inst("%"@, dst, l, r))
            == Some(MachineView { regs: m.regs.update(dst as int, (m.regs[l as int] % m.regs[r as int]) as u32), ..m }),
        m.regs[r as int] == 0 ==> inst_effect(data, m, binop_inst("%"@, dst, l, r)) is None,
{
    reveal_strlit("&&");
    reveal_strlit("==");
    reveal_strlit("%");
    assert("=="@[0] != "&&"@[0]);
    assert("%"@.len() != "&&"@.len());
    assert("%"@.len() != "=="@.len());
}

/// A string literal without NUL bytes, stored with its terminating NUL,
/// prints as its bytes followed by one newline.
pub proof fn lemma_puts_literal(text: Seq<u8>)
    requires
        forall|k: int| 0 <= k < text.len() ==> text[k] != 0,
    ensures
        puts_output(text.push(0u8)) == text.push(10u8),
{
    let s = text.push(0u8);
    assert(is_first_nul(s, text.len() as int));
    let c = choose|c: int| is_first_nul(s, c);
    if c < text.len() {
        assert(s[c] == text[c]);
    } else if c > text.len() {
        assert(s[text.len() as int] != 0);
    }
    assert(s.subrange(0, text.len() as int) =~= text);
}


pub proof fn lemma_wrap_signed(a: int)
    requires
        -0x8000_0000 <= a < 0x8000_0000,
    ensures
        signed32(wrap32(a)) == a,
        wrap32(wrap32(a) + 1) == wrap32(a + 1),
{
}

/// Running `a + b` runs `a`, then, unless it trapped, `b`.
pub proof fn lemma_insts_effect_concat(data: Seq<Seq<u8>>, m: MachineView, a: Seq<Inst>, b: Seq<Inst>)
    ensures
        insts_effect(data, m, a + b) == ({
            let (m1, ok) = insts_effect(data, m, a);
            if ok { insts_effect(data, m1, b) } else { (m1, false) }
        }),
    decreases b.len(),
{
    if b.len() == 0 {
        assert(a + b =~= a);
    } else {
        assert((a + b).drop_last() =~= a + b.drop_last());
        assert((a + b).last() == b.last());
        lemma_insts_effect_concat(data, m, a, b.drop_last());
        let (m1, ok) = insts_effect(data, m, a);
        if !ok {
            lemma_trap_stays_concat(data, m, a, b);
        }
    }
}

proof fn lemma_trap_stays_concat(data: Seq<Seq<u8>>, m: MachineView, a: Seq<Inst>, b: Seq<Inst>)
    requires
        !insts_effect(data, m, a).1,
    ensures
        insts_effect(data, m, a + b) == insts_effect(data, m, a),
    decreases b.len(),
{
    if b.len() == 0 {
        assert(a + b =~= a);
    } else {
        assert((a + b).drop_last() =~= a + b.drop_last());
        lemma_trap_stays_concat(data, m, a, b.drop_last());
    }
}

/// Running one instruction.
pub proof fn lemma_insts_effect_single(data: Seq<Seq<u8>>, m: MachineView, i: Inst)
    ensures
        insts_effect(data, m, seq![i]) == (match inst_effect(data, m, i) {
            Some(m2) => (m2, true),
            None => (m, false),
        }),
{
    assert(seq![i].drop_last() =~= Seq::<Inst>::empty());
    assert(seq![i].last() == i);
    assert(insts_effect(data, m, Seq::<Inst>::empty()) == (m, true));
}

} // verus!
