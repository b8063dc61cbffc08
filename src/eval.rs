use vstd::prelude::*;
use crate::ast::{AstNode, AstValue};
use crate::digits::{decimal3, lemma_print_int_writes_decimal3};
use crate::exec::{
    insts_effect, lemma_insts_effect_concat, lemma_insts_effect_single, puts_output, wrap32, MachineView,
};
use crate::ir::Inst;
use crate::lower::{binop_inst, expr_insts, expr_result, expr_size, print_int_insts, straight, supported};
use crate::tables::{first_index, lemma_first_index_found};

verus! {

/// What evaluating the expression `n` gives, from the slots `slots` and the
/// output `out`: its value, the slots and the output after it; `None` where
/// it traps on a remainder by zero. Identifiers read the slot of their name;
/// `print` writes a string literal and a newline, or an integer as
/// `decimal3`; `&&` is the bitwise and of the two values, `==` is 1 or 0,
/// `%` the unsigned remainder.
pub open spec fn eval_expr(n: AstNode, names: Seq<Seq<char>>, data: Seq<Seq<u8>>, slots: Seq<u32>, out: Seq<u8>)
    -> Option<(u32, Seq<u32>, Seq<u8>)>
    decreases n,
{
    match n {
        AstNode::Literal(AstValue::Int(i)) => Some((wrap32(i as int), slots, out)),
        AstNode::Identifier(x) => Some((slots[first_index(names, x@) as int], slots, out)),
        AstNode::Call(name, args) =>
            if name@ == "print"@ {
                if args@.len() == 0 {
                    None
                } else {
                    match args@[0] {
                        AstNode::Literal(AstValue::Text(t)) => {
                            let d = first_index(data, t@);
                            Some((wrap32(d as int), slots, out + puts_output(data[d as int])))
                        },
                        AstNode::Literal(AstValue::Int(i)) =>
                            Some((wrap32(i as int), slots, out + decimal3(wrap32(i as int)))),
                        AstNode::Identifier(x) => {
                            let val = slots[first_index(names, x@) as int];
                            Some((val, slots, out + decimal3(val)))
                        },
                        _ => None,
                    }
                }
            } else if args@.len() == 2 {
                match eval_expr(args@[0], names, data, slots, out) {
                    None => None,
                    Some((a, s1, o1)) => match eval_expr(args@[1], names, data, s1, o1) {
                        None => None,
                        Some((b, s2, o2)) =>
                            if name@ == "&&"@ {
                                Some((a & b, s2, o2))
                            } else if name@ == "=="@ {
                                Some((if a == b { 1u32 } else { 0u32 }, s2, o2))
                            } else if b == 0 {
                                None
                            } else {
                                Some(((a % b) as u32, s2, o2))
                            },
                    },
                }
            } else {
                None
            },
        AstNode::Assign(name, rhs) => match eval_expr(*rhs, names, data, slots, out) {
            None => None,
            Some((v, s1, o1)) => Some((v, s1.update(first_index(names, name@) as int, v), o1)),
        },
        _ => None,
    }
}

proof fn lemma_expr_bounds(n: AstNode, names: Seq<Seq<char>>, data: Seq<Seq<u8>>, base: nat)
    requires
        straight(n),
        supported(n, names, data),
    ensures
        expr_size(n) >= 1,
        base <= expr_result(n, base) < base + expr_size(n),
    decreases n,
{
    match n {
        AstNode::Call(name, args) => {
                if name@ != "print"@ {
                    lemma_expr_bounds(args@[0], names, data, base);
                    lemma_expr_bounds(args@[1], names, data, base + expr_size(args@[0]));
                }
        },
        AstNode::Assign(_, rhs) => lemma_expr_bounds(*rhs, names, data, base),
        _ => {},
    }
}

/// The instructions of the expression `n`, run from `m`, trap exactly where
/// `eval_expr` does, and otherwise leave its value in the result value, its
/// slots and its output, without touching the values numbered below `base`.
pub open spec fn computes(data: Seq<Seq<u8>>, names: Seq<Seq<char>>, m: MachineView, n: AstNode, base: nat) -> bool {
    let e = insts_effect(data, m, expr_insts(n, base, names, data));
    match eval_expr(n, names, data, m.slots, m.out) {
        Some((val, s2, o2)) => {
            &&& e.1
            &&& s2.len() == m.slots.len()
            &&& e.0.regs[expr_result(n, base) as int] == val
            &&& e.0.slots == s2
            &&& e.0.out == o2
            &&& e.0.regs.len() == m.regs.len()
            &&& forall|j: int| 0 <= j < base ==> #[trigger] e.0.regs[j] == m.regs[j]
        },
        None => !e.1,
    }
}

/// What the lemmas about expression instructions assume.
pub open spec fn expr_context(data: Seq<Seq<u8>>, names: Seq<Seq<char>>, m: MachineView, n: AstNode, base: nat) -> bool {
    &&& straight(n)
    &&& supported(n, names, data)
    &&& m.slots.len() == names.len()
    &&& names.len() <= usize::MAX
    &&& data.len() < 0x1_0000_0000
    &&& base + expr_size(n) <= m.regs.len()
    &&& base + expr_size(n) <= usize::MAX
}

/// The instructions that lowering emits for a straight-line expression
/// compute what `eval_expr` says.
pub proof fn lemma_expr_insts_compute(data: Seq<Seq<u8>>, names: Seq<Seq<char>>, m: MachineView, n: AstNode, base: nat)
    requires
        expr_context(data, names, m, n, base),
    ensures
        computes(data, names, m, n, base),
    decreases n, 1nat,
{
    let b = base as usize;
    match n {
        AstNode::Literal(AstValue::Int(i)) => {
            lemma_insts_effect_single(data, m, Inst::Iconst { dst: b, imm: i });
        },
        AstNode::Identifier(x) => {
            lemma_first_index_found(names, x@);
            lemma_insts_effect_single(data, m, Inst::UseVar { dst: b, slot: first_index(names, x@) as usize });
        },
        AstNode::Call(name, args) => {
                if name@ == "print"@ {
                    lemma_print_computes(data, names, m, n, base);
                } else {
                    lemma_binop_computes(data, names, m, n, base);
                }
        },
        AstNode::Assign(..) => lemma_assign_computes(data, names, m, n, base),
        _ => {},
    }
}

proof fn lemma_print_computes(data: Seq<Seq<u8>>, names: Seq<Seq<char>>, m: MachineView, n: AstNode, base: nat)
    requires
        expr_context(data, names, m, n, base),
        n matches AstNode::Call(name, _) && name@ == "print"@,
    ensures
        computes(data, names, m, n, base),
{
    let b = base as usize;
    match n {
        AstNode::Call(_, args) => {
            match args@[0] {
                AstNode::Literal(AstValue::Text(t)) => {
                    lemma_first_index_found(data, t@);
                    let d = first_index(data, t@);
                    let i0 = Inst::SymbolValue { dst: b, data: d as usize };
                    let i1 = Inst::Puts { arg: b };
                    assert(expr_insts(n, base, names, data) =~= seq![i0] + seq![i1]);
                    lemma_insts_effect_concat(data, m, seq![i0], seq![i1]);
                    lemma_insts_effect_single(data, m, i0);
                    let m1 = insts_effect(data, m, seq![i0]).0;
                    lemma_insts_effect_single(data, m1, i1);
                },
                AstNode::Literal(AstValue::Int(i)) => {
                    let i0 = Inst::Iconst { dst: b, imm: i };
                    lemma_insts_effect_concat(data, m, seq![i0], print_int_insts(b, (base + 1) as usize));
                    lemma_insts_effect_single(data, m, i0);
                    let m1 = insts_effect(data, m, seq![i0]).0;
                    lemma_print_int_writes_decimal3(data, m1, b, (base + 1) as usize);
                },
                AstNode::Identifier(x) => {
                    lemma_first_index_found(names, x@);
                    let i0 = Inst::UseVar { dst: b, slot: first_index(names, x@) as usize };
                    lemma_insts_effect_concat(data, m, seq![i0], print_int_insts(b, (base + 1) as usize));
                    lemma_insts_effect_single(data, m, i0);
                    let m1 = insts_effect(data, m, seq![i0]).0;
                    lemma_print_int_writes_decimal3(data, m1, b, (base + 1) as usize);
                },
                _ => {},
            }
        },
        _ => {},
    }
}

proof fn lemma_binop_computes(data: Seq<Seq<u8>>, names: Seq<Seq<char>>, m: MachineView, n: AstNode, base: nat)
    requires
        expr_context(data, names, m, n, base),
        n matches AstNode::Call(name, _) && name@ != "print"@,
    ensures
        computes(data, names, m, n, base),
    decreases n, 0nat,
{
    match n {
        AstNode::Call(name, args) => {
            let a0 = args@[0];
            let a1 = args@[1];
            let b1 = base + expr_size(a0);
            lemma_expr_bounds(a0, names, data, base);
            lemma_expr_bounds(a1, names, data, b1);
            let e0 = expr_insts(a0, base, names, data);
            let e1 = expr_insts(a1, b1, names, data);
            let op = binop_inst(name@, (b1 + expr_size(a1)) as usize,
                expr_result(a0, base) as usize, expr_result(a1, b1) as usize);
            lemma_insts_effect_concat(data, m, e0 + e1, seq![op]);
            lemma_insts_effect_concat(data, m, e0, e1);
            lemma_expr_insts_compute(data, names, m, a0, base);
            let m1 = insts_effect(data, m, e0).0;
            if insts_effect(data, m, e0).1 {
                lemma_expr_insts_compute(data, names, m1, a1, b1);
                let m2 = insts_effect(data, m1, e1).0;
                if insts_effect(data, m1, e1).1 {
                    lemma_insts_effect_single(data, m2, op);
                    reveal_strlit("&&");
                    reveal_strlit("==");
                    reveal_strlit("%");
                    assert("=="@[0] != "&&"@[0]);
                    assert("%"@.len() != "&&"@.len());
                    assert("%"@.len() != "=="@.len());
                }
            }
        },
        _ => {},
    }
}

proof fn lemma_assign_computes(data: Seq<Seq<u8>>, names: Seq<Seq<char>>, m: MachineView, n: AstNode, base: nat)
    requires
        expr_context(data, names, m, n, base),
        n is Assign,
    ensures
        computes(data, names, m, n, base),
    decreases n, 0nat,
{
    match n {
        AstNode::Assign(name, rhs) => {
            lemma_first_index_found(names, name@);
            lemma_expr_bounds(*rhs, names, data, base);
            let e = expr_insts(*rhs, base, names, data);
            let st = Inst::DefVar { slot: first_index(names, name@) as usize, src: expr_result(*rhs, base) as usize };
            lemma_insts_effect_concat(data, m, e, seq![st]);
            lemma_expr_insts_compute(data, names, m, *rhs, base);
            if insts_effect(data, m, e).1 {
                lemma_insts_effect_single(data, insts_effect(data, m, e).0, st);
            }
        },
        _ => {},
    }
}

} // verus!
