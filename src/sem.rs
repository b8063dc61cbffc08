use vstd::prelude::*;
use crate::ast::AstNode;
use crate::builder::FnBuilder;
use crate::eval::{eval_expr, lemma_expr_insts_compute};
use crate::exec::{
    data_of, initial, insts_effect, lemma_insts_effect_concat, lemma_insts_effect_single, lemma_wrap_signed, run, signed32, wrap32,
    MachineView, Status,
};
use crate::ir::{Function, Inst, Terminator};
use crate::lower::{expr_insts, expr_size, frame, prefix_of, straight, straight_effect, supported, tidy, Compiler};
use crate::tables::first_index;

verus! {

/// Runs `f` from instruction `k` of block `b`, in state `m`, entering at
/// most `fuel` blocks counting this one.
pub open spec fn run_from(f: Function, b: int, k: int, m: MachineView, fuel: nat) -> (Status, Seq<u8>) {
    if fuel == 0 {
        (Status::OutOfFuel, m.out)
    } else {
        let insts = f.blocks@[b].insts@;
        let (m2, ok) = insts_effect(data_of(f), m, insts.subrange(k, insts.len() as int));
        if !ok {
            (Status::Trapped, m2.out)
        } else {
            match f.blocks@[b].term {
                Terminator::Return => (Status::Finished, m2.out),
                Terminator::Jump { target } => run(f, target as int, m2, (fuel - 1) as nat),
                Terminator::Brz { cond, if_zero, if_nonzero } =>
                    run(f, if m2.regs[cond as int] == 0 { if_zero as int } else { if_nonzero as int },
                        m2, (fuel - 1) as nat),
                Terminator::Open => (Status::Trapped, m2.out),
            }
        }
    }
}

pub proof fn lemma_run_is_run_from(f: Function, b: int, m: MachineView, fuel: nat)
    ensures
        run(f, b, m, fuel) == run_from(f, b, 0, m, fuel),
{
    let insts = f.blocks@[b].insts@;
    assert(insts.subrange(0, insts.len() as int) =~= insts);
}

/// Running from `k` runs the instructions up to `j` first.
pub proof fn lemma_run_from_split(f: Function, b: int, k: int, j: int, m: MachineView, fuel: nat)
    requires
        0 <= k <= j <= f.blocks@[b].insts@.len(),
        fuel > 0,
    ensures
        run_from(f, b, k, m, fuel) == ({
            let (m1, ok) = insts_effect(data_of(f), m, f.blocks@[b].insts@.subrange(k, j));
            if ok { run_from(f, b, j, m1, fuel) } else { (Status::Trapped, m1.out) }
        }),
{
    let insts = f.blocks@[b].insts@;
    assert(insts.subrange(k, insts.len() as int) =~= insts.subrange(k, j) + insts.subrange(j, insts.len() as int));
    lemma_insts_effect_concat(data_of(f), m, insts.subrange(k, j), insts.subrange(j, insts.len() as int));
}

/// How running a node or statements ends: done with a value, slots, output
/// and the number of block changes it took, or trapped after some.
pub enum Outcome {
    Done { val: u32, slots: Seq<u32>, out: Seq<u8>, cost: nat },
    Trap { spent: nat },
}

/// One more block change before `o`.
pub open spec fn after_branch(o: Outcome) -> Outcome {
    match o {
        Outcome::Trap { spent: c } => Outcome::Trap { spent: c + 1 },
        Outcome::Done { val: _, slots: s, out: out, cost: c } => Outcome::Done { val: 0, slots: s, out: out, cost: c + 2 },
    }
}

/// What running the node `n` gives from `slots` and `out`. Expressions go
/// by `eval_expr` and change no block. `if` evaluates its condition, then
/// the true statements where it is nonzero, else the false ones, with a
/// block change into the branch and one out of it; its value is 0. `for`
/// sets its variable to `first` and goes by `exec_loop`, after a block
/// change into the compare block.
pub open spec fn exec_node(n: AstNode, names: Seq<Seq<char>>, data: Seq<Seq<u8>>, slots: Seq<u32>, out: Seq<u8>) -> Outcome
    decreases n, 0int,
{
    if straight(n) {
        match eval_expr(n, names, data, slots, out) {
            None => Outcome::Trap { spent: 0 },
            Some((v, s, o)) => Outcome::Done { val: v, slots: s, out: o, cost: 0 },
        }
    } else {
        match n {
            AstNode::If { cond_expr, true_expr, false_expr } =>
                match eval_expr(*cond_expr, names, data, slots, out) {
                    None => Outcome::Trap { spent: 0 },
                    Some((cv, s1, o1)) =>
                        if cv != 0 {
                            after_branch(exec_list(true_expr@, names, data, s1, o1))
                        } else {
                            after_branch(exec_list(false_expr@, names, data, s1, o1))
                        },
                },
            AstNode::For { ident, first, last, body } => {
                let slot = first_index(names, ident@) as int;
                match exec_loop(body@, slot, first as int, last as int, names, data,
                    slots.update(slot, wrap32(first as int)), out) {
                    Outcome::Trap { spent: c } => Outcome::Trap { spent: c + 1 },
                    Outcome::Done { val: _, slots: s, out: o, cost: c } => Outcome::Done { val: 0, slots: s, out: o, cost: c + 1 },
                }
            },
            _ => Outcome::Trap { spent: 0 },
        }
    }
}

/// What running the statements `ns` in turn gives.
pub open spec fn exec_list(ns: Seq<AstNode>, names: Seq<Seq<char>>, data: Seq<Seq<u8>>, slots: Seq<u32>, out: Seq<u8>) -> Outcome
    decreases ns, 0int,
{
    if ns.len() == 0 {
        Outcome::Done { val: 0, slots: slots, out: out, cost: 0 }
    } else {
        match exec_list(ns.subrange(0, ns.len() - 1), names, data, slots, out) {
            Outcome::Trap { spent: c } => Outcome::Trap { spent: c },
            Outcome::Done { val: _, slots: s1, out: o1, cost: c1 } => match exec_node(ns[ns.len() - 1], names, data, s1, o1) {
                Outcome::Trap { spent: c } => Outcome::Trap { spent: c1 + c },
                Outcome::Done { val: v, slots: s2, out: o2, cost: c2 } => Outcome::Done { val: v, slots: s2, out: o2, cost: c1 + c2 },
            },
        }
    }
}

/// What a loop does from its compare block when its variable, in slot
/// `slot`, holds `i`: while `i <= last` the body runs (a block change into
/// it and one back) and the variable becomes `i + 1`; then a block change
/// into the exit block.
pub open spec fn exec_loop(
    body: Seq<AstNode>,
    slot: int,
    i: int,
    last: int,
    names: Seq<Seq<char>>,
    data: Seq<Seq<u8>>,
    slots: Seq<u32>,
    out: Seq<u8>,
) -> Outcome
    decreases body, last + 1 - i,
{
    if i > last {
        Outcome::Done { val: 0, slots: slots, out: out, cost: 1 }
    } else {
        match exec_list(body, names, data, slots, out) {
            Outcome::Trap { spent: c } => Outcome::Trap { spent: c + 1 },
            Outcome::Done { val: _, slots: s2, out: o2, cost: cb } =>
                match exec_loop(body, slot, i + 1, last, names, data, s2.update(slot, wrap32(i + 1)), o2) {
                    Outcome::Trap { spent: c } => Outcome::Trap { spent: cb + 2 + c },
                    Outcome::Done { val: _, slots: s, out: o, cost: c } => Outcome::Done { val: 0, slots: s, out: o, cost: cb + 2 + c },
                },
        }
    }
}

/// Block `k` of `f` is as the builder `b` has it.
pub open spec fn agree(f: Function, b: FnBuilder, k: int) -> bool {
    f.blocks@[k].insts@ == b.blocks@[k].insts@ && f.blocks@[k].term == b.blocks@[k].term
}

/// The function `f` holds what was built from `old` to `new`: the blocks
/// created in between and the block left behind, as they are, and the
/// instructions of the current block at the front of that block.
pub open spec fn extends(f: Function, new: FnBuilder, old: FnBuilder) -> bool {
    &&& f.blocks@.len() >= new.blocks@.len()
    &&& f.num_values >= new.num_values
    &&& new.current < new.blocks@.len()
    &&& forall|k: int| old.blocks@.len() <= k < new.blocks@.len() && k != new.current ==> #[trigger] agree(f, new, k)
    &&& old.current != new.current ==> agree(f, new, old.current as int)
    &&& prefix_of(new.cur_block().insts@, f.blocks@[new.current as int].insts@)
}

/// `m2` follows `m` with slots `s` and output `o`, the same number of values,
/// and the values numbered below `base` unchanged.
pub open spec fn settles(m: MachineView, m2: MachineView, s: Seq<u32>, o: Seq<u8>, base: nat) -> bool {
    &&& m2.slots == s
    &&& m2.out == o
    &&& m2.slots.len() == m.slots.len()
    &&& m2.regs.len() == m.regs.len()
    &&& forall|j: int| 0 <= j < base ==> #[trigger] m2.regs[j] == m.regs[j]
}

/// What the claims about runs of `f` assume of it and of the state.
pub open spec fn run_env(f: Function, names: Seq<Seq<char>>, data: Seq<Seq<u8>>, m: MachineView) -> bool {
    &&& data_of(f) == data
    &&& data.len() < 0x1_0000_0000
    &&& names.len() <= usize::MAX
    &&& m.regs.len() == f.num_values
    &&& m.slots.len() == names.len()
}

/// Running `f` from the end of the current block of `old` ends as `o`
/// says: trapped, or at the end of the current block of `new` in a state with
/// the outcome's slots and output (and its value in `v` where `has_val`),
/// after the outcome's number of block changes.
pub open spec fn claim(f: Function, old: FnBuilder, new: FnBuilder, o: Outcome, v: usize, has_val: bool, m: MachineView, fuel: nat) -> bool {
    let k0 = old.cur_block().insts@.len() as int;
    let k1 = new.cur_block().insts@.len() as int;
    match o {
        Outcome::Done { val: val, slots: s, out: out, cost: cost } => fuel > cost ==> exists|m2: MachineView|
            #[trigger] settles(m, m2, s, out, old.num_values as nat) && (has_val ==> m2.regs[v as int] == val)
            && run_from(f, old.current as int, k0, m, fuel)
                == run_from(f, new.current as int, k1, m2, (fuel - cost) as nat),
        Outcome::Trap { spent: cost } => fuel > cost ==> run_from(f, old.current as int, k0, m, fuel).0 == Status::Trapped,
    }
}

/// Running `f` from where the code of `n` starts (lowered from `old` to
/// `new`) does what `exec_node` says, then goes on where that code ends, with
/// the node's value in `v`.
pub open spec fn node_runs(
    f: Function,
    old: FnBuilder,
    new: FnBuilder,
    names: Seq<Seq<char>>,
    data: Seq<Seq<u8>>,
    n: AstNode,
    v: usize,
    m: MachineView,
    fuel: nat,
) -> bool {
    extends(f, new, old) && run_env(f, names, data, m)
        ==> claim(f, old, new, exec_node(n, names, data, m.slots, m.out), v, true, m, fuel)
}

/// As `node_runs`, for statements `ns` in turn.
pub open spec fn list_runs(
    f: Function,
    old: FnBuilder,
    new: FnBuilder,
    names: Seq<Seq<char>>,
    data: Seq<Seq<u8>>,
    ns: Seq<AstNode>,
    m: MachineView,
    fuel: nat,
) -> bool {
    extends(f, new, old) && run_env(f, names, data, m)
        ==> claim(f, old, new, exec_list(ns, names, data, m.slots, m.out), 0, false, m, fuel)
}

/// Lowering `n` from `old` to `new`, with value `v`, is correct for every
/// function that holds the result and every state.
pub open spec fn lowers_node(old: FnBuilder, new: FnBuilder, names: Seq<Seq<char>>, data: Seq<Seq<u8>>, n: AstNode, v: usize) -> bool {
    forall|f: Function, m: MachineView, fuel: nat| #[trigger] node_runs(f, old, new, names, data, n, v, m, fuel)
}

/// Lowering the statements `ns` from `old` to `new` is correct.
pub open spec fn lowers_list(old: FnBuilder, new: FnBuilder, names: Seq<Seq<char>>, data: Seq<Seq<u8>>, ns: Seq<AstNode>) -> bool {
    forall|f: Function, m: MachineView, fuel: nat| #[trigger] list_runs(f, old, new, names, data, ns, m, fuel)
}

/// What a function holds of two lowering steps in turn it holds of each.
pub proof fn lemma_extends_split(f: Function, a: FnBuilder, b: FnBuilder, c: FnBuilder)
    requires
        extends(f, c, a),
        a.wf(),
        b.wf(),
        c.wf(),
        frame(b, a),
        tidy(b, a),
        frame(c, b),
        tidy(c, b),
    ensures
        extends(f, b, a),
        extends(f, c, b),
{
    assert forall|k: int| b.blocks@.len() <= k < c.blocks@.len() && k != c.current implies #[trigger] agree(f, c, k) by {
        assert(agree(f, c, k));
    }
    if b.current != c.current {
        if b.current == a.current {
            assert(agree(f, c, a.current as int));
        } else {
            assert(agree(f, c, b.current as int));
        }
    }
    assert forall|k: int| a.blocks@.len() <= k < b.blocks@.len() && k != b.current implies #[trigger] agree(f, b, k) by {
        assert(c.blocks@[k] == b.blocks@[k]);
        assert(agree(f, c, k));
    }
    if a.current != b.current {
        assert(c.blocks@[a.current as int] == b.blocks@[a.current as int]);
        assert(agree(f, c, a.current as int));
    }
    let bi = b.cur_block().insts@;
    let fi = f.blocks@[b.current as int].insts@;
    if b.current == c.current {
        assert forall|i: int| 0 <= i < bi.len() implies #[trigger] bi[i] == fi[i] by {
            assert(bi[i] == c.cur_block().insts@[i]);
        }
    } else {
        if b.current == a.current {
            assert(agree(f, c, a.current as int));
        } else {
            assert(agree(f, c, b.current as int));
        }
        assert forall|i: int| 0 <= i < bi.len() implies #[trigger] bi[i] == fi[i] by {
            assert(bi[i] == c.blocks@[b.current as int].insts@[i]);
        }
    }
}

/// A straight-line node lowered into the current block runs as
/// `exec_node` says.
pub proof fn lemma_straight_lowers(old: Compiler, new: Compiler, n: AstNode, v: usize)
    requires
        old.wf(),
        new.wf(),
        straight(n),
        supported(n, old.names(), old.strings()),
        straight_effect(old, new, n, v),
    ensures
        lowers_node(old.builder, new.builder, old.names(), old.strings(), n, v),
{
    let names = old.names();
    let data = old.strings();
    assert forall|f: Function, m: MachineView, fuel: nat|
        #[trigger] node_runs(f, old.builder, new.builder, names, data, n, v, m, fuel) by {
        if extends(f, new.builder, old.builder) && run_env(f, names, data, m) {
            let c = old.builder.current as int;
            let k0 = old.builder.cur_block().insts@.len() as int;
            let k1 = new.builder.cur_block().insts@.len() as int;
            let e = expr_insts(n, old.builder.num_values as nat, names, data);
            let fi = f.blocks@[c].insts@;
            assert(fi.subrange(k0, k1) =~= e) by {
                assert forall|i: int| 0 <= i < e.len() implies fi.subrange(k0, k1)[i] == e[i] by {
                    assert(new.builder.cur_block().insts@[k0 + i] == e[i]);
                    assert(fi[k0 + i] == new.builder.cur_block().insts@[k0 + i]);
                }
            }
            lemma_expr_insts_compute(data, names, m, n, old.builder.num_values as nat);
            if fuel > 0 {
                lemma_run_from_split(f, c, k0, k1, m, fuel);
                let r = insts_effect(data, m, e);
                let o = exec_node(n, names, data, m.slots, m.out);
                if r.1 {
                    assert(o is Done && o->slots == r.0.slots && o->out == r.0.out && o->cost == 0 && o->val == r.0.regs[v as int]);
                    assert(settles(m, r.0, o->slots, o->out, old.builder.num_values as nat));
                }
            }
        }
    }
}

/// No statements: the run goes on where it is.
pub proof fn lemma_empty_list_lowers(b: FnBuilder, names: Seq<Seq<char>>, data: Seq<Seq<u8>>)
    ensures
        lowers_list(b, b, names, data, Seq::empty()),
{
    assert forall|f: Function, m: MachineView, fuel: nat|
        #[trigger] list_runs(f, b, b, names, data, Seq::empty(), m, fuel) by {
        let o = exec_list(Seq::empty(), names, data, m.slots, m.out);
        assert(o is Done && o->slots == m.slots && o->out == m.out && o->cost == 0);
        assert(settles(m, m, o->slots, o->out, b.num_values as nat));
    }
}

/// Statements `ns` and then one more node run in turn.
pub proof fn lemma_list_step(
    start: FnBuilder,
    mid: FnBuilder,
    new: FnBuilder,
    names: Seq<Seq<char>>,
    data: Seq<Seq<u8>>,
    ns: Seq<AstNode>,
    n: AstNode,
    v: usize,
    ns2: Seq<AstNode>,
)
    requires
        start.wf(),
        mid.wf(),
        new.wf(),
        frame(new, mid),
        tidy(new, mid),
        frame(mid, start),
        tidy(mid, start),
        lowers_list(start, mid, names, data, ns),
        lowers_node(mid, new, names, data, n, v),
        ns2.len() > 0,
        ns2.subrange(0, ns2.len() - 1) == ns,
        ns2[ns2.len() - 1] == n,
    ensures
        lowers_list(start, new, names, data, ns2),
{
    assert forall|f: Function, m: MachineView, fuel: nat|
        #[trigger] list_runs(f, start, new, names, data, ns2, m, fuel) by {
        if extends(f, new, start) && run_env(f, names, data, m) {
            lemma_extends_split(f, start, mid, new);
            assert(list_runs(f, start, mid, names, data, ns, m, fuel));
            let o1 = exec_list(ns, names, data, m.slots, m.out);
            assert(ns2.subrange(0, ns2.len() - 1) == ns);
            if o1 is Done && fuel > o1->cost {
                let c1 = o1->cost;
                let m1 = choose|m1: MachineView| #[trigger] settles(m, m1, o1->slots, o1->out, start.num_values as nat)
                    && (false ==> m1.regs[0] == o1->val)
                    && run_from(f, start.current as int, start.cur_block().insts@.len() as int, m, fuel)
                    == run_from(f, mid.current as int, mid.cur_block().insts@.len() as int, m1, (fuel - c1) as nat);
                let f1 = (fuel - c1) as nat;
                assert(node_runs(f, mid, new, names, data, n, v, m1, f1));
                let o2 = exec_node(n, names, data, m1.slots, m1.out);
                let o = exec_list(ns2, names, data, m.slots, m.out);
                if o2 is Done {
                    assert(o is Done && o->slots == o2->slots && o->out == o2->out && o->cost == c1 + o2->cost);
                    if f1 > o2->cost {
                        let m2 = choose|m2: MachineView| #[trigger] settles(m1, m2, o2->slots, o2->out, mid.num_values as nat)
                            && (true ==> m2.regs[v as int] == o2->val)
                            && run_from(f, mid.current as int, mid.cur_block().insts@.len() as int, m1, f1)
                            == run_from(f, new.current as int, new.cur_block().insts@.len() as int, m2, (f1 - o2->cost) as nat);
                        assert(settles(m, m2, o->slots, o->out, start.num_values as nat));
                        assert((f1 - o2->cost) as nat == (fuel - o->cost) as nat);
                    }
                } else {
                    assert(o is Trap && o->spent == c1 + o2->spent);
                }
            }
        }
    }
}

/// The end of block `b` of `f` is at `k`: a run from there follows its
/// terminator.
proof fn lemma_run_from_end(f: Function, b: int, k: int, m: MachineView, fuel: nat)
    requires
        f.blocks@[b].insts@.len() == k,
        fuel > 0,
    ensures
        run_from(f, b, k, m, fuel) == (match f.blocks@[b].term {
            Terminator::Return => (Status::Finished, m.out),
            Terminator::Jump { target } => run_from(f, target as int, 0, m, (fuel - 1) as nat),
            Terminator::Brz { cond, if_zero, if_nonzero } =>
                run_from(f, if m.regs[cond as int] == 0 { if_zero as int } else { if_nonzero as int }, 0, m,
                    (fuel - 1) as nat),
            Terminator::Open => (Status::Trapped, m.out),
        }),
{
    let insts = f.blocks@[b].insts@;
    assert(insts.subrange(k, k) =~= Seq::<Inst>::empty());
    assert(insts_effect(data_of(f), m, Seq::<Inst>::empty()) == (m, true));
    match f.blocks@[b].term {
        Terminator::Jump { target } => lemma_run_is_run_from(f, target as int, m, (fuel - 1) as nat),
        Terminator::Brz { cond, if_zero, if_nonzero } => {
            lemma_run_is_run_from(f, if_zero as int, m, (fuel - 1) as nat);
            lemma_run_is_run_from(f, if_nonzero as int, m, (fuel - 1) as nat);
        },
        _ => {},
    }
}

/// A branch of a conditional: from the start of block `b` its statements run
/// as `list_runs` says, ending at the end of block `x`, which jumps to
/// `merge`.
pub open spec fn branch_ok(f: Function, sa: FnBuilder, sb: FnBuilder, x: int, merge: int) -> bool {
    &&& sa.cur_block().insts@.len() == 0
    &&& x == sb.current
    &&& f.blocks@[x].insts@.len() == sb.cur_block().insts@.len()
    &&& f.blocks@[x].term == Terminator::Jump { target: merge as usize }
}

/// One side of a conditional, entered with the condition's value in place,
/// runs its statements and reaches the merge block, where the placeholder
/// value is set.
proof fn lemma_branch_runs(
    f: Function,
    s0: FnBuilder,
    sa: FnBuilder,
    sb: FnBuilder,
    fin: FnBuilder,
    names: Seq<Seq<char>>,
    data: Seq<Seq<u8>>,
    ns: Seq<AstNode>,
    v: usize,
    m: MachineView,
    m1: MachineView,
    fuel: nat,
)
    requires
        lowers_list(sa, sb, names, data, ns),
        extends(f, sb, sa),
        run_env(f, names, data, m1),
        branch_ok(f, sa, sb, sb.current as int, fin.current as int),
        fin.cur_block().insts@ == seq![Inst::Iconst { dst: v, imm: 0 }],
        prefix_of(fin.cur_block().insts@, f.blocks@[fin.current as int].insts@),
        v >= sb.num_values,
        sb.num_values >= sa.num_values,
        sa.num_values >= s0.num_values,
        v < m1.regs.len(),
        m1.slots.len() == m.slots.len(),
        m1.regs.len() == m.regs.len(),
        forall|j: int| 0 <= j < s0.num_values ==> #[trigger] m1.regs[j] == m.regs[j],
        fuel > 0,
    ensures
        ({
            let o = after_branch(exec_list(ns, names, data, m1.slots, m1.out));
            match o {
                Outcome::Done { val, slots, out, cost } => fuel > cost ==> exists|m3: MachineView|
                    #[trigger] settles(m, m3, slots, out, s0.num_values as nat) && m3.regs[v as int] == val
                    && run_from(f, sa.current as int, 0, m1, (fuel - 1) as nat)
                        == run_from(f, fin.current as int, 1, m3, (fuel - cost) as nat),
                Outcome::Trap { spent } => fuel > spent ==> run_from(f, sa.current as int, 0, m1, (fuel - 1) as nat).0 == Status::Trapped,
            }
        }),
{
    let ol = exec_list(ns, names, data, m1.slots, m1.out);
    let f1 = (fuel - 1) as nat;
    assert(list_runs(f, sa, sb, names, data, ns, m1, f1));
    let o = after_branch(ol);
    if ol is Done {
        if fuel > ol->cost + 2 {
            let m2 = choose|m2: MachineView| #[trigger] settles(m1, m2, ol->slots, ol->out, sa.num_values as nat)
                && (false ==> m2.regs[0] == ol->val)
                && run_from(f, sa.current as int, 0, m1, f1)
                == run_from(f, sb.current as int, sb.cur_block().insts@.len() as int, m2, (f1 - ol->cost) as nat);
            let f2 = (f1 - ol->cost) as nat;
            lemma_run_from_end(f, sb.current as int, sb.cur_block().insts@.len() as int, m2, f2);
            let mb = fin.current as int;
            let i = Inst::Iconst { dst: v, imm: 0 };
            lemma_run_from_split(f, mb, 0, 1, m2, (f2 - 1) as nat);
            assert(f.blocks@[mb].insts@.subrange(0, 1) =~= seq![i]);
            lemma_insts_effect_single(data_of(f), m2, i);
            let m3 = insts_effect(data_of(f), m2, seq![i]).0;
            assert(o->slots == ol->slots && o->out == ol->out && o->cost == ol->cost + 2 && o->val == 0);
            assert forall|j: int| 0 <= j < s0.num_values implies #[trigger] m3.regs[j] == m.regs[j] by {
                assert(m2.regs[j] == m1.regs[j]);
            }
            assert(settles(m, m3, o->slots, o->out, s0.num_values as nat));
            assert((f2 - 1) as nat == (fuel - o->cost) as nat);
        }
    }
}

/// What lowering `if (c) { t } else { fl }` builds, through the states
/// the lowering passes: `s1` after the condition, `s2`..`s3` around the true
/// statements, `s4`..`s5` around the false ones, and `fin` at the end.
pub open spec fn if_built(
    s0: FnBuilder, s1: FnBuilder, s2: FnBuilder, s3: FnBuilder, s4: FnBuilder, s5: FnBuilder, fin: FnBuilder,
    cv: usize, v: usize,
) -> bool {
    let l = s0.blocks@.len();
    let c0 = s0.current as int;
    let x = s3.current as int;
    let y = s5.current as int;
    &&& s0.current < l
    &&& s1.current == s0.current && s1.blocks@.len() == l && s1.num_values >= s0.num_values
    &&& s2.current == l && s2.blocks@.len() == l + 3 && s2.num_values == s1.num_values
    &&& s3.num_values >= s2.num_values && s3.current < s3.blocks@.len() && s3.blocks@.len() >= s2.blocks@.len()
    &&& s4.current == l + 1 && s4.blocks@.len() == s3.blocks@.len() && s4.num_values == s3.num_values
    &&& s5.num_values >= s4.num_values && s5.current < s5.blocks@.len() && s5.blocks@.len() >= s4.blocks@.len()
    &&& fin.current == l + 2 && fin.blocks@.len() == s5.blocks@.len()
    &&& fin.cur_block().insts@ == seq![Inst::Iconst { dst: v, imm: 0 }]
    &&& v == s5.num_values && fin.num_values == v + 1
    &&& s2.cur_block().insts@.len() == 0 && s4.cur_block().insts@.len() == 0
    &&& (x == l || x >= l + 3) && (y == l + 1 || y >= s4.blocks@.len())
    &&& fin.blocks@[c0].insts@ == s1.cur_block().insts@
    &&& fin.blocks@[c0].term == Terminator::Brz { cond: cv, if_zero: (l + 1) as usize, if_nonzero: l as usize }
    &&& fin.blocks@[x].insts@ == s3.cur_block().insts@
    &&& fin.blocks@[x].term == Terminator::Jump { target: (l + 2) as usize }
    &&& fin.blocks@[y].insts@ == s5.cur_block().insts@
    &&& fin.blocks@[y].term == Terminator::Jump { target: (l + 2) as usize }
    &&& forall|k: int| (l + 3 <= k < s3.blocks@.len() || k == l) && k != x ==>
        #[trigger] fin.blocks@[k].insts@ == s3.blocks@[k].insts@ && fin.blocks@[k].term == s3.blocks@[k].term
    &&& forall|k: int| (s4.blocks@.len() <= k < s5.blocks@.len() || k == l + 1) && k != y ==>
        #[trigger] fin.blocks@[k].insts@ == s5.blocks@[k].insts@ && fin.blocks@[k].term == s5.blocks@[k].term
}

/// Lowering a conditional is correct when its parts are.
pub proof fn lemma_if_lowers(
    s0: FnBuilder, s1: FnBuilder, s2: FnBuilder, s3: FnBuilder, s4: FnBuilder, s5: FnBuilder, fin: FnBuilder,
    names: Seq<Seq<char>>, data: Seq<Seq<u8>>, node: AstNode, cv: usize, v: usize,
)
    requires
        node is If,
        straight(*node->cond_expr),
        lowers_node(s0, s1, names, data, *node->cond_expr, cv),
        lowers_list(s2, s3, names, data, node->true_expr@),
        lowers_list(s4, s5, names, data, node->false_expr@),
        if_built(s0, s1, s2, s3, s4, s5, fin, cv, v),
    ensures
        lowers_node(s0, fin, names, data, node, v),
{
    let c = *node->cond_expr;
    let t = node->true_expr@;
    let fl = node->false_expr@;
    let l = s0.blocks@.len() as int;
    let c0 = s0.current as int;
    let x = s3.current as int;
    let y = s5.current as int;
    assert forall|f: Function, m: MachineView, fuel: nat| #[trigger] node_runs(f, s0, fin, names, data, node, v, m, fuel) by {
        if extends(f, fin, s0) && run_env(f, names, data, m) {
            assert(agree(f, fin, c0));
            assert(agree(f, fin, x));
            assert(agree(f, fin, y));
            // The condition.
            assert(prefix_of(s1.cur_block().insts@, f.blocks@[c0].insts@));
            assert(extends(f, s1, s0));
            assert(node_runs(f, s0, s1, names, data, c, cv, m, fuel));
            // The two branches.
            assert forall|k: int| s2.blocks@.len() <= k < s3.blocks@.len() && k != s3.current implies
                #[trigger] agree(f, s3, k) by { assert(agree(f, fin, k)); }
            if s2.current != s3.current { assert(agree(f, fin, l)); }
            assert(prefix_of(s3.cur_block().insts@, f.blocks@[x].insts@));
            assert(extends(f, s3, s2));
            assert forall|k: int| s4.blocks@.len() <= k < s5.blocks@.len() && k != s5.current implies
                #[trigger] agree(f, s5, k) by { assert(agree(f, fin, k)); }
            if s4.current != s5.current { assert(agree(f, fin, l + 1)); }
            assert(prefix_of(s5.cur_block().insts@, f.blocks@[y].insts@));
            assert(extends(f, s5, s4));
            let o = exec_node(node, names, data, m.slots, m.out);
            let oc = exec_node(c, names, data, m.slots, m.out);
            if oc is Done && fuel > 0 {
                let m1 = choose|m1: MachineView| #[trigger] settles(m, m1, oc->slots, oc->out, s0.num_values as nat)
                    && (true ==> m1.regs[cv as int] == oc->val)
                    && run_from(f, c0, s0.cur_block().insts@.len() as int, m, fuel)
                    == run_from(f, c0, s1.cur_block().insts@.len() as int, m1, (fuel - oc->cost) as nat);
                assert(oc->cost == 0);
                lemma_run_from_end(f, c0, s1.cur_block().insts@.len() as int, m1, fuel);
                assert(run_env(f, names, data, m1));
                if oc->val != 0 {
                    lemma_branch_runs(f, s0, s2, s3, fin, names, data, t, v, m, m1, fuel);
                } else {
                    lemma_branch_runs(f, s0, s4, s5, fin, names, data, fl, v, m, m1, fuel);
                }
            }
        }
    }
}

/// The blocks of a loop as `f` holds them: the compare block `l` reads the
/// slot into value `n0 + 1` and tests it against `last`; the body's
/// statements, lowered from `s1` to `s2`, start at block `l + 1` and end in a
/// block that adds one to the value read, stores it in the slot and jumps
/// back; the exit block is `l + 2`.
pub open spec fn loop_built(f: Function, s1: FnBuilder, s2: FnBuilder, l: int, n0: nat, slot: nat, last: i64) -> bool {
    let x = s2.current as int;
    let nv = s2.num_values;
    &&& 0 <= l && l + 2 < f.blocks@.len() && l + 2 <= usize::MAX
    &&& f.blocks@[l].insts@ == seq![
        Inst::UseVar { dst: (n0 + 1) as usize, slot: slot as usize },
        Inst::IcmpSleImm { dst: (n0 + 2) as usize, arg: (n0 + 1) as usize, imm: last },
    ]
    &&& f.blocks@[l].term == Terminator::Brz { cond: (n0 + 2) as usize, if_zero: (l + 2) as usize, if_nonzero: (l + 1) as usize }
    &&& s1.current == l + 1 && s1.cur_block().insts@.len() == 0 && s1.num_values == n0 + 3
    &&& s2.num_values >= s1.num_values && nv < f.num_values
    &&& x < f.blocks@.len()
    &&& f.blocks@[x].insts@ == s2.cur_block().insts@ + seq![
        Inst::IaddImm { dst: nv, arg: (n0 + 1) as usize, imm: 1 },
        Inst::DefVar { slot: slot as usize, src: nv },
    ]
    &&& f.blocks@[x].term == Terminator::Jump { target: l as usize }
    &&& slot <= usize::MAX
}

/// A loop entered at its compare block with its variable holding `i` runs as
/// `exec_loop` says, reaching the start of the exit block.
pub proof fn lemma_loop_runs(
    f: Function, s1: FnBuilder, s2: FnBuilder, names: Seq<Seq<char>>, data: Seq<Seq<u8>>, body: Seq<AstNode>,
    l: int, n0: nat, slot: nat, i: int, last: i64, m: MachineView, fuel: nat,
)
    requires
        loop_built(f, s1, s2, l, n0, slot, last),
        lowers_list(s1, s2, names, data, body),
        extends(f, s2, s1),
        run_env(f, names, data, m),
        slot < names.len(),
        m.slots[slot as int] == wrap32(i),
        -0x8000_0000 <= i < 0x8000_0000,
        -0x8000_0000 <= last < 0x7fff_ffff,
    ensures
        ({
            let o = exec_loop(body, slot as int, i, last as int, names, data, m.slots, m.out);
            match o {
                Outcome::Done { val, slots, out, cost } => fuel > cost ==> exists|m3: MachineView|
                    #[trigger] settles(m, m3, slots, out, n0)
                    && run(f, l, m, fuel) == run_from(f, l + 2, 0, m3, (fuel - cost) as nat),
                Outcome::Trap { spent } => fuel > spent ==> run(f, l, m, fuel).0 == Status::Trapped,
            }
        }),
    decreases last + 1 - i,
{
    let data = data_of(f);
    let o = exec_loop(body, slot as int, i, last as int, names, data, m.slots, m.out);
    lemma_wrap_signed(i);
    lemma_wrap_signed(last as int);
    if fuel > 0 {
        let u = Inst::UseVar { dst: (n0 + 1) as usize, slot: slot as usize };
        let c = Inst::IcmpSleImm { dst: (n0 + 2) as usize, arg: (n0 + 1) as usize, imm: last };
        assert(f.blocks@[l].insts@ =~= seq![u] + seq![c]);
        lemma_run_is_run_from(f, l, m, fuel);
        lemma_run_from_split(f, l, 0, 2, m, fuel);
        assert(f.blocks@[l].insts@.subrange(0, 2) =~= seq![u] + seq![c]);
        lemma_insts_effect_concat(data, m, seq![u], seq![c]);
        lemma_insts_effect_single(data, m, u);
        let mu = insts_effect(data, m, seq![u]).0;
        lemma_insts_effect_single(data, mu, c);
        let mc = insts_effect(data, mu, seq![c]).0;
        lemma_run_from_end(f, l, 2, mc, fuel);
        if i > last {
            if fuel > 1 {
                assert(settles(m, mc, o->slots, o->out, n0));
            }
        } else {
            let f1 = (fuel - 1) as nat;
            assert(run_env(f, names, data, mc));
            assert(list_runs(f, s1, s2, names, data, body, mc, f1));
            let ob = exec_list(body, names, data, mc.slots, mc.out);
            if ob is Done && f1 > ob->cost {
                let m2 = choose|m2: MachineView| #[trigger] settles(mc, m2, ob->slots, ob->out, s1.num_values as nat)
                    && (false ==> m2.regs[0] == ob->val)
                    && run_from(f, l + 1, 0, mc, f1)
                    == run_from(f, s2.current as int, s2.cur_block().insts@.len() as int, m2, (f1 - ob->cost) as nat);
                let f2 = (f1 - ob->cost) as nat;
                let x = s2.current as int;
                let kx = s2.cur_block().insts@.len() as int;
                let nv = s2.num_values;
                let a = Inst::IaddImm { dst: nv, arg: (n0 + 1) as usize, imm: 1 };
                let d = Inst::DefVar { slot: slot as usize, src: nv };
                lemma_run_from_split(f, x, kx, kx + 2, m2, f2);
                assert(f.blocks@[x].insts@.subrange(kx, kx + 2) =~= seq![a] + seq![d]);
                lemma_insts_effect_concat(data, m2, seq![a], seq![d]);
                lemma_insts_effect_single(data, m2, a);
                let ma = insts_effect(data, m2, seq![a]).0;
                lemma_insts_effect_single(data, ma, d);
                let md = insts_effect(data, ma, seq![d]).0;
                lemma_run_from_end(f, x, kx + 2, md, f2);
                lemma_run_is_run_from(f, l, md, (f2 - 1) as nat);
                assert(m2.regs[(n0 + 1) as int] == wrap32(i));
                assert(md.slots == ob->slots.update(slot as int, wrap32(i + 1)));
                assert(run_env(f, names, data, md));
                lemma_loop_runs(f, s1, s2, names, data, body, l, n0, slot, i + 1, last, md, (f2 - 1) as nat);
                let orest = exec_loop(body, slot as int, i + 1, last as int, names, data, md.slots, md.out);
                if orest is Done {
                    assert(o is Done && o->slots == orest->slots && o->out == orest->out && o->cost == ob->cost + 2 + orest->cost);
                    if fuel > o->cost {
                        let m3 = choose|m3: MachineView| #[trigger] settles(md, m3, orest->slots, orest->out, n0)
                            && run(f, l, md, (f2 - 1) as nat) == run_from(f, l + 2, 0, m3, ((f2 - 1) as nat - orest->cost) as nat);
                        assert forall|j: int| 0 <= j < n0 implies #[trigger] m3.regs[j] == m.regs[j] by {
                            assert(md.regs[j] == m2.regs[j]);
                            assert(m2.regs[j] == mc.regs[j]);
                        }
                        assert(settles(m, m3, o->slots, o->out, n0));
                        assert(((f2 - 1) as nat - orest->cost) as nat == (fuel - o->cost) as nat);
                    }
                } else {
                    assert(o is Trap && o->spent == ob->cost + 2 + orest->spent);
                }
            } else if ob is Trap {
                assert(o is Trap && o->spent == ob->spent + 1);
            }
        }
    }
}

/// What lowering `for (ident; first, last) { body }` builds, through the
/// states the lowering passes: `s1` and `s2` around the body, `fin` at the
/// end; the loop variable is in `slot`.
pub open spec fn for_built(s0: FnBuilder, s1: FnBuilder, s2: FnBuilder, fin: FnBuilder, slot: nat, first: i64, last: i64, v: usize) -> bool {
    let l = s0.blocks@.len() as int;
    let c0 = s0.current as int;
    let n0 = s0.num_values as nat;
    let x = s2.current as int;
    &&& c0 < l && l + 3 < usize::MAX
    &&& fin.blocks@[c0].insts@ == s0.cur_block().insts@
        + seq![Inst::Iconst { dst: n0 as usize, imm: first }, Inst::DefVar { slot: slot as usize, src: n0 as usize }]
    &&& fin.blocks@[c0].term == Terminator::Jump { target: l as usize }
    &&& fin.blocks@[l].insts@ == seq![
        Inst::UseVar { dst: (n0 + 1) as usize, slot: slot as usize },
        Inst::IcmpSleImm { dst: (n0 + 2) as usize, arg: (n0 + 1) as usize, imm: last },
    ]
    &&& fin.blocks@[l].term == Terminator::Brz { cond: (n0 + 2) as usize, if_zero: (l + 2) as usize, if_nonzero: (l + 1) as usize }
    &&& fin.current == l + 2 && fin.cur_block().insts@ == seq![Inst::Iconst { dst: v, imm: 0 }]
    &&& v == s2.num_values + 1 && fin.num_values == v + 1 && fin.blocks@.len() == s2.blocks@.len()
    &&& s1.current == l + 1 && s1.blocks@.len() == l + 3 && s1.num_values == n0 + 3 && s1.cur_block().insts@.len() == 0
    &&& (x == l + 1 || x >= l + 3) && x < s2.blocks@.len() && s2.num_values >= s1.num_values
    &&& s2.blocks@.len() >= s1.blocks@.len()
    &&& fin.blocks@[x].insts@ == s2.cur_block().insts@ + seq![
        Inst::IaddImm { dst: s2.num_values, arg: (n0 + 1) as usize, imm: 1 },
        Inst::DefVar { slot: slot as usize, src: s2.num_values },
    ]
    &&& fin.blocks@[x].term == Terminator::Jump { target: l as usize }
    &&& forall|k: int| (l + 3 <= k < s2.blocks@.len() || k == l + 1) && k != x ==>
        #[trigger] fin.blocks@[k].insts@ == s2.blocks@[k].insts@ && fin.blocks@[k].term == s2.blocks@[k].term
}

/// Lowering a loop is correct when its body's lowering is.
pub proof fn lemma_for_lowers(
    s0: FnBuilder, s1: FnBuilder, s2: FnBuilder, fin: FnBuilder,
    names: Seq<Seq<char>>, data: Seq<Seq<u8>>, node: AstNode, slot: nat, v: usize,
)
    requires
        node is For,
        !straight(node),
        slot == first_index(names, node->ident@),
        slot < names.len(),
        -0x8000_0000 <= node->first < 0x8000_0000,
        -0x8000_0000 <= node->last < 0x7fff_ffff,
        lowers_list(s1, s2, names, data, node->body@),
        for_built(s0, s1, s2, fin, slot, node->first, node->last, v),
    ensures
        lowers_node(s0, fin, names, data, node, v),
{
    let first = node->first;
    let last = node->last;
    let body = node->body@;
    let l = s0.blocks@.len() as int;
    let c0 = s0.current as int;
    let n0 = s0.num_values as nat;
    let x = s2.current as int;
    assert forall|f: Function, m: MachineView, fuel: nat| #[trigger] node_runs(f, s0, fin, names, data, node, v, m, fuel) by {
        if extends(f, fin, s0) && run_env(f, names, data, m) {
            let data = data_of(f);
            assert(agree(f, fin, c0));
            assert(agree(f, fin, l));
            assert(agree(f, fin, x));
            assert forall|k: int| s1.blocks@.len() <= k < s2.blocks@.len() && k != s2.current implies
                #[trigger] agree(f, s2, k) by { assert(agree(f, fin, k)); }
            if s1.current != s2.current { assert(agree(f, fin, l + 1)); }
            assert(prefix_of(s2.cur_block().insts@, f.blocks@[x].insts@));
            assert(extends(f, s2, s1));
            assert(loop_built(f, s1, s2, l, n0, slot, last));
            let o = exec_node(node, names, data, m.slots, m.out);
            let k0 = s0.cur_block().insts@.len() as int;
            if fuel > 1 {
                let i0 = Inst::Iconst { dst: n0 as usize, imm: first };
                let i1 = Inst::DefVar { slot: slot as usize, src: n0 as usize };
                lemma_run_from_split(f, c0, k0, k0 + 2, m, fuel);
                assert(f.blocks@[c0].insts@.subrange(k0, k0 + 2) =~= seq![i0] + seq![i1]);
                lemma_insts_effect_concat(data, m, seq![i0], seq![i1]);
                lemma_insts_effect_single(data, m, i0);
                let ma = insts_effect(data, m, seq![i0]).0;
                lemma_insts_effect_single(data, ma, i1);
                let m0 = insts_effect(data, ma, seq![i1]).0;
                lemma_run_from_end(f, c0, k0 + 2, m0, fuel);
                lemma_run_is_run_from(f, l, m0, (fuel - 1) as nat);
                lemma_wrap_signed(first as int);
                assert(m0.slots == m.slots.update(slot as int, wrap32(first as int)));
                assert(run_env(f, names, data, m0));
                lemma_loop_runs(f, s1, s2, names, data, body, l, n0, slot, first as int, last, m0, (fuel - 1) as nat);
                let ol = exec_loop(body, slot as int, first as int, last as int, names, data, m0.slots, m0.out);
                if ol is Done {
                    assert(o is Done && o->slots == ol->slots && o->out == ol->out && o->cost == ol->cost + 1 && o->val == 0);
                    if fuel > o->cost {
                        let m3 = choose|m3: MachineView| #[trigger] settles(m0, m3, ol->slots, ol->out, n0)
                            && run(f, l, m0, (fuel - 1) as nat) == run_from(f, l + 2, 0, m3, ((fuel - 1) as nat - ol->cost) as nat);
                        let f3 = ((fuel - 1) as nat - ol->cost) as nat;
                        let i3 = Inst::Iconst { dst: v, imm: 0 };
                        lemma_run_from_split(f, l + 2, 0, 1, m3, f3);
                        assert(f.blocks@[l + 2].insts@.subrange(0, 1) =~= seq![i3]);
                        lemma_insts_effect_single(data, m3, i3);
                        let m4 = insts_effect(data, m3, seq![i3]).0;
                        assert forall|j: int| 0 <= j < n0 implies #[trigger] m4.regs[j] == m.regs[j] by {
                            assert(m3.regs[j] == m0.regs[j]);
                        }
                        assert(settles(m, m4, o->slots, o->out, n0));
                        assert(f3 == (fuel - o->cost) as nat);
                    }
                } else {
                    assert(o is Trap && o->spent == ol->spent + 1);
                }
            }
        }
    }
}

/// The slots a program starts with: all zero.
pub open spec fn start_slots(n: nat) -> Seq<u32> {
    Seq::new(n, |i: int| 0u32)
}

/// A run of `f` from its entry, with all slots zero and no output, ends as
/// running the program `p` says: it finishes with the output `exec_node`
/// gives, or traps, given more blocks than that takes.
pub open spec fn program_runs(f: Function, p: AstNode, names: Seq<Seq<char>>, data: Seq<Seq<u8>>, fuel: nat) -> bool {
    match exec_node(p, names, data, start_slots(names.len()), Seq::empty()) {
        Outcome::Done { val, slots, out, cost } => fuel > cost ==> run(f, 0, initial(f), fuel) == (Status::Finished, out),
        Outcome::Trap { spent } => fuel > spent ==> run(f, 0, initial(f), fuel).0 == Status::Trapped,
    }
}

/// A whole program lowered from a fresh builder into `f`, whose current
/// block ends with a return, runs as `program_runs` says.
pub proof fn lemma_program_runs(
    f: Function, start: FnBuilder, after: FnBuilder, names: Seq<Seq<char>>, data: Seq<Seq<u8>>, p: AstNode, v: usize,
    fuel: nat,
)
    requires
        lowers_node(start, after, names, data, p, v),
        extends(f, after, start),
        start.current == 0,
        start.cur_block().insts@.len() == 0,
        f.blocks@[after.current as int].insts@.len() == after.cur_block().insts@.len(),
        f.blocks@[after.current as int].term == Terminator::Return,
        data_of(f) == data,
        data.len() < 0x1_0000_0000,
        names.len() == f.num_slots,
    ensures
        program_runs(f, p, names, data, fuel),
{
    let m = initial(f);
    assert(m.slots =~= start_slots(names.len()));
    assert(run_env(f, names, data, m));
    assert(node_runs(f, start, after, names, data, p, v, m, fuel));
    lemma_run_is_run_from(f, 0, m, fuel);
    let o = exec_node(p, names, data, m.slots, m.out);
    if o is Done && fuel > o->cost {
        let m2 = choose|m2: MachineView| #[trigger] settles(m, m2, o->slots, o->out, start.num_values as nat)
            && (true ==> m2.regs[v as int] == o->val)
            && run_from(f, 0, 0, m, fuel)
            == run_from(f, after.current as int, after.cur_block().insts@.len() as int, m2, (fuel - o->cost) as nat);
        lemma_run_from_end(f, after.current as int, after.cur_block().insts@.len() as int, m2, (fuel - o->cost) as nat);
    }
}

} // verus!
