use vstd::prelude::*;

verus! {

/// One instruction of a basic block. Operands and results are value numbers;
/// every value is a 32-bit integer, defined once.
#[derive(Clone, Copy, Debug, PartialEq, Eq, Structural)]
pub enum Inst {
    /// `dst = imm`, truncated to 32 bits.
    Iconst { dst: usize, imm: i64 },
    /// `dst = slot`.
    UseVar { dst: usize, slot: usize },
    /// `slot = src`.
    DefVar { slot: usize, src: usize },
    /// `dst = lhs & rhs`.
    Band { dst: usize, lhs: usize, rhs: usize },
    /// `dst = 1` when `lhs == rhs`, else `0`.
    IcmpEq { dst: usize, lhs: usize, rhs: usize },
    /// `dst = lhs % rhs`, unsigned; traps when `rhs` is zero.
    Urem { dst: usize, lhs: usize, rhs: usize },
    /// `dst = arg / imm`, unsigned.
    UdivImm { dst: usize, arg: usize, imm: u32 },
    /// `dst = arg % imm`, unsigned.
    UremImm { dst: usize, arg: usize, imm: u32 },
    /// `dst = arg + imm`, wrapping.
    IaddImm { dst: usize, arg: usize, imm: i32 },
    /// `dst = 1` when `arg == imm`, else `0`.
    IcmpEqImm { dst: usize, arg: usize, imm: u32 },
    /// `dst = 1` when `arg <= imm` as signed 32-bit integers, else `0`.
    IcmpSleImm { dst: usize, arg: usize, imm: i64 },
    /// `dst = if cond != 0 { on_true } else { on_false }`.
    Select { dst: usize, cond: usize, on_true: usize, on_false: usize },
    /// `dst` = the address of a data symbol.
    SymbolValue { dst: usize, data: usize },
    /// Calls the byte-string output routine on the address in `arg`.
    Puts { arg: usize },
    /// Calls the character output routine on the low byte of `arg`.
    Putchar { arg: usize },
}

/// How a basic block ends.
#[derive(Clone, Copy, Debug, PartialEq, Eq, Structural)]
pub enum Terminator {
    /// Not terminated yet.
    Open,
    Jump { target: usize },
    /// To `if_zero` when `cond` is zero, else to `if_nonzero`.
    Brz { cond: usize, if_zero: usize, if_nonzero: usize },
    Return,
}

#[derive(Debug)]
pub struct Block {
    pub insts: Vec<Inst>,
    pub term: Terminator,
    /// The set of predecessors is complete.
    pub sealed: bool,
}

/// A finished function: its blocks (the first is the entry), how many values
/// and slots it uses, and the data symbols it refers to.
#[derive(Debug)]
pub struct Function {
    pub blocks: Vec<Block>,
    pub num_values: usize,
    pub num_slots: usize,
    pub data: Vec<Vec<u8>>,
}

/// The instruction refers only to existing values, slots and data symbols.
pub open spec fn inst_in_bounds(i: Inst, nv: nat, ns: nat, nd: nat) -> bool {
    match i {
        Inst::Iconst { dst, .. } => dst < nv,
        Inst::UseVar { dst, slot } => dst < nv && slot < ns,
        Inst::DefVar { slot, src } => slot < ns && src < nv,
        Inst::Band { dst, lhs, rhs } => dst < nv && lhs < nv && rhs < nv,
        Inst::IcmpEq { dst, lhs, rhs } => dst < nv && lhs < nv && rhs < nv,
        Inst::Urem { dst, lhs, rhs } => dst < nv && lhs < nv && rhs < nv,
        Inst::UdivImm { dst, arg, imm } => dst < nv && arg < nv && imm != 0,
        Inst::UremImm { dst, arg, imm } => dst < nv && arg < nv && imm != 0,
        Inst::IaddImm { dst, arg, .. } => dst < nv && arg < nv,
        Inst::IcmpEqImm { dst, arg, .. } => dst < nv && arg < nv,
        Inst::IcmpSleImm { dst, arg, .. } => dst < nv && arg < nv,
        Inst::Select { dst, cond, on_true, on_false } =>
            dst < nv && cond < nv && on_true < nv && on_false < nv,
        Inst::SymbolValue { dst, data } => dst < nv && data < nd,
        Inst::Puts { arg } => arg < nv,
        Inst::Putchar { arg } => arg < nv,
    }
}

/// The terminator refers only to existing values and blocks.
pub open spec fn term_in_bounds(t: Terminator, nv: nat, nb: nat) -> bool {
    match t {
        Terminator::Jump { target } => target < nb,
        Terminator::Brz { cond, if_zero, if_nonzero } => cond < nv && if_zero < nb && if_nonzero < nb,
        _ => true,
    }
}

pub open spec fn block_in_bounds(b: Block, nv: nat, ns: nat, nd: nat, nb: nat) -> bool {
    &&& forall|k: int| 0 <= k < b.insts@.len() ==> #[trigger] inst_in_bounds(b.insts@[k], nv, ns, nd)
    &&& term_in_bounds(b.term, nv, nb)
}

impl Function {
    /// Every reference is in bounds, and every block is sealed and terminated.
    pub open spec fn wf(&self) -> bool {
        &&& self.blocks@.len() > 0
        &&& forall|b: int| 0 <= b < self.blocks@.len() ==> {
            &&& block_in_bounds(#[trigger] self.blocks@[b], self.num_values as nat,
                self.num_slots as nat, self.data@.len(), self.blocks@.len())
            &&& self.blocks@[b].sealed
            &&& self.blocks@[b].term != Terminator::Open
        }
    }
}

} // verus!
