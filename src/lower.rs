use vstd::prelude::*;
use crate::ast::{AstNode, AstValue};
use crate::builder::{settled, FnBuilder};
use crate::ir::{Block, Function, Inst, Terminator};
use crate::exec::data_of;
use crate::sem::{
    agree, extends, for_built, if_built, lemma_empty_list_lowers, lemma_for_lowers, lemma_if_lowers, lemma_list_step,
    lemma_program_runs, lemma_straight_lowers, lowers_list, lowers_node, program_runs,
};
use crate::tables::{
    alloc_node, compile_data, data_view, declare_all_variables, find_data, find_slot, first_index,
    intern_node, lemma_first_index_found, names_view,
};

verus! {

/// Why a syntax tree could not be lowered. Reading an unbound name and an
/// unsupported construct are returned here as values, which goes beyond
/// aborting the process on them; the command-line program still aborts.
/// Loop bounds past 32 bits count as unsupported: their counter would wrap.
#[derive(Clone, Copy, Debug, PartialEq, Eq, Structural)]
pub enum LowerError {
    /// An identifier is read or assigned that has no slot.
    UnboundIdentifier,
    /// A node, call name or argument list that the lowering does not handle.
    UnsupportedConstruct,
    /// The function would need more values or blocks than a `usize` counts.
    TooLarge,
}

/// `name` is one of the binary operators `&&`, `==` and `%`.
pub open spec fn is_binop(name: Seq<char>) -> bool {
    name == "&&"@ || name == "=="@ || name == "%"@
}

/// What `print` accepts: a string literal, an integer literal or a bound
/// identifier.
pub open spec fn print_arg_ok(a: AstNode, names: Seq<Seq<char>>, data: Seq<Seq<u8>>) -> bool {
    match a {
        AstNode::Literal(AstValue::Text(s)) => data.contains(s@),
        AstNode::Literal(AstValue::Int(_)) => true,
        AstNode::Identifier(x) => names.contains(x@),
        _ => false,
    }
}

/// The node can be lowered with the slot table `names` and the data table
/// `data`. Operands, assigned values and conditions are expressions, as the
/// grammar builds them: an `if` or `for` there is not lowered. Loop bounds
/// must fit `bounds_fit`: a 32-bit counter past them would wrap.
pub open spec fn supported(n: AstNode, names: Seq<Seq<char>>, data: Seq<Seq<u8>>) -> bool
    decreases n,
{
    match n {
        AstNode::Literal(AstValue::Int(_)) => true,
        AstNode::Literal(AstValue::Text(_)) => false,
        AstNode::Identifier(x) => names.contains(x@),
        AstNode::Call(name, args) =>
            if name@ == "print"@ {
                args@.len() == 1 && print_arg_ok(args@[0], names, data)
            } else {
                is_binop(name@) && args@.len() == 2 && straight(args@[0]) && straight(args@[1])
                    && supported(args@[0], names, data)
                    && supported(args@[1], names, data)
            },
        AstNode::Assign(name, rhs) => straight(*rhs) && supported(*rhs, names, data) && names.contains(name@),
        AstNode::If { cond_expr, true_expr, false_expr } =>
            straight(*cond_expr) && supported(*cond_expr, names, data) && supported_list(true_expr@, names, data)
                && supported_list(false_expr@, names, data),
        AstNode::For { ident, first, last, body } =>
            names.contains(ident@) && bounds_fit(first, last) && supported_list(body@, names, data),
    }
}

/// The bounds of a loop are 32-bit signed integers and `last` is below the
/// largest one, so that counting up to `last + 1` does not wrap.
pub open spec fn bounds_fit(first: i64, last: i64) -> bool {
    -0x8000_0000 <= first < 0x8000_0000 && -0x8000_0000 <= last < 0x7fff_ffff
}

/// The first problem that lowering `n` meets, in the order it works, apart
/// from running out of counters: an unsupported shape, call name, argument
/// list or loop bounds, or a name without a slot. `None` where there is none.
pub open spec fn lower_error(n: AstNode, names: Seq<Seq<char>>, data: Seq<Seq<u8>>) -> Option<LowerError>
    decreases n,
{
    match n {
        AstNode::Literal(AstValue::Int(_)) => None,
        AstNode::Literal(AstValue::Text(_)) => Some(LowerError::UnsupportedConstruct),
        AstNode::Identifier(x) => if names.contains(x@) { None } else { Some(LowerError::UnboundIdentifier) },
        AstNode::Call(name, args) =>
            if name@ == "print"@ {
                if args@.len() != 1 {
                    Some(LowerError::UnsupportedConstruct)
                } else {
                    match args@[0] {
                        AstNode::Literal(AstValue::Text(t)) =>
                            if data.contains(t@) { None } else { Some(LowerError::UnsupportedConstruct) },
                        AstNode::Literal(AstValue::Int(_)) => None,
                        AstNode::Identifier(x) =>
                            if names.contains(x@) { None } else { Some(LowerError::UnboundIdentifier) },
                        _ => Some(LowerError::UnsupportedConstruct),
                    }
                }
            } else if args@.len() != 2 || !is_binop(name@) || !straight(args@[0]) || !straight(args@[1]) {
                Some(LowerError::UnsupportedConstruct)
            } else {
                match lower_error(args@[0], names, data) {
                    Some(e) => Some(e),
                    None => lower_error(args@[1], names, data),
                }
            },
        AstNode::Assign(name, rhs) =>
            if !straight(*rhs) {
                Some(LowerError::UnsupportedConstruct)
            } else {
                match lower_error(*rhs, names, data) {
                    Some(e) => Some(e),
                    None => if names.contains(name@) { None } else { Some(LowerError::UnboundIdentifier) },
                }
            },
        AstNode::If { cond_expr, true_expr, false_expr } =>
            if !straight(*cond_expr) {
                Some(LowerError::UnsupportedConstruct)
            } else {
                match lower_error(*cond_expr, names, data) {
                    Some(e) => Some(e),
                    None => match list_error(true_expr@, names, data) {
                        Some(e) => Some(e),
                        None => list_error(false_expr@, names, data),
                    },
                }
            },
        AstNode::For { ident, first, last, body } =>
            if !names.contains(ident@) {
                Some(LowerError::UnboundIdentifier)
            } else if !bounds_fit(first, last) {
                Some(LowerError::UnsupportedConstruct)
            } else {
                list_error(body@, names, data)
            },
    }
}

/// The first problem that lowering the nodes `ns` in turn meets.
pub open spec fn list_error(ns: Seq<AstNode>, names: Seq<Seq<char>>, data: Seq<Seq<u8>>) -> Option<LowerError>
    decreases ns,
{
    if ns.len() == 0 {
        None
    } else {
        match list_error(ns.subrange(0, ns.len() - 1), names, data) {
            Some(e) => Some(e),
            None => lower_error(ns[ns.len() - 1], names, data),
        }
    }
}

/// A node that can be lowered meets no problem.
pub proof fn lemma_supported_no_error(n: AstNode, names: Seq<Seq<char>>, data: Seq<Seq<u8>>)
    requires
        supported(n, names, data),
    ensures
        lower_error(n, names, data) is None,
    decreases n,
{
    match n {
        AstNode::Call(name, args) => {
            if name@ != "print"@ {
                lemma_supported_no_error(args@[0], names, data);
                lemma_supported_no_error(args@[1], names, data);
            }
        },
        AstNode::Assign(_, rhs) => lemma_supported_no_error(*rhs, names, data),
        AstNode::If { cond_expr, true_expr, false_expr } => {
            lemma_supported_no_error(*cond_expr, names, data);
            lemma_supported_list_no_error(true_expr@, names, data);
            lemma_supported_list_no_error(false_expr@, names, data);
        },
        AstNode::For { body, .. } => lemma_supported_list_no_error(body@, names, data),
        _ => {},
    }
}

/// Nodes that can be lowered meet no problem.
pub proof fn lemma_supported_list_no_error(ns: Seq<AstNode>, names: Seq<Seq<char>>, data: Seq<Seq<u8>>)
    requires
        supported_list(ns, names, data),
    ensures
        list_error(ns, names, data) is None,
    decreases ns,
{
    if ns.len() > 0 {
        lemma_supported_list_no_error(ns.subrange(0, ns.len() - 1), names, data);
        lemma_supported_no_error(ns[ns.len() - 1], names, data);
    }
}

/// The first problem of a prefix is the first problem of the whole list.
proof fn lemma_list_error_prefix(ns: Seq<AstNode>, k: int, names: Seq<Seq<char>>, data: Seq<Seq<u8>>)
    requires
        0 <= k <= ns.len(),
        list_error(ns.subrange(0, k), names, data) is Some,
    ensures
        list_error(ns, names, data) == list_error(ns.subrange(0, k), names, data),
    decreases ns.len() - k,
{
    if k < ns.len() {
        let pre = ns.subrange(0, ns.len() - 1);
        assert(pre.subrange(0, k) =~= ns.subrange(0, k));
        lemma_list_error_prefix(pre, k, names, data);
    } else {
        assert(ns.subrange(0, k) =~= ns);
    }
}

/// Every node of `ns` can be lowered.
pub open spec fn supported_list(ns: Seq<AstNode>, names: Seq<Seq<char>>, data: Seq<Seq<u8>>) -> bool
    decreases ns,
{
    if ns.len() == 0 {
        true
    } else {
        supported_list(ns.subrange(0, ns.len() - 1), names, data)
            && supported(ns[ns.len() - 1], names, data)
    }
}

/// From `old` to `new` nothing was removed, the blocks that existed before,
/// except the current one, are unchanged, and the current one kept its
/// sealing and its instructions, at the front of what it holds now.
pub open spec fn frame(new: FnBuilder, old: FnBuilder) -> bool {
    &&& new.num_values >= old.num_values
    &&& new.num_slots == old.num_slots
    &&& new.num_data == old.num_data
    &&& new.blocks@.len() >= old.blocks@.len()
    &&& forall|b: int| 0 <= b < old.blocks@.len() && b != old.current ==>
        #[trigger] new.blocks@[b] == old.blocks@[b]
    &&& new.blocks@[old.current as int].sealed == old.blocks@[old.current as int].sealed
    &&& prefix_of(old.blocks@[old.current as int].insts@, new.blocks@[old.current as int].insts@)
}

/// `a` is a prefix of `b`.
pub open spec fn prefix_of<A>(a: Seq<A>, b: Seq<A>) -> bool {
    a.len() <= b.len() && forall|i: int| 0 <= i < a.len() ==> #[trigger] a[i] == b[i]
}

/// Every block created from `old` to `new` is sealed and terminated but the
/// current one; if the insertion point moved, the old current block is
/// terminated and the new one is sealed.
pub open spec fn tidy(new: FnBuilder, old: FnBuilder) -> bool {
    &&& forall|b: int| old.blocks@.len() <= b < new.blocks@.len() && b != new.current ==>
        settled(#[trigger] new.blocks@[b])
    &&& new.current != old.current ==> new.blocks@[old.current as int].term != Terminator::Open
    &&& new.current == old.current || (new.current >= old.blocks@.len()
        && new.blocks@[new.current as int].sealed)
}

proof fn lemma_frame_trans(a: FnBuilder, b: FnBuilder, c: FnBuilder)
    requires
        a.wf(), b.wf(), c.wf(),
        frame(b, a),
        b.current == a.current || b.current >= a.blocks@.len(),
        frame(c, b),
    ensures
        frame(c, a),
{
}

proof fn lemma_frame_tidy_trans(a: FnBuilder, b: FnBuilder, c: FnBuilder)
    requires
        a.wf(), b.wf(), c.wf(),
        frame(b, a), tidy(b, a),
        frame(c, b), tidy(c, b),
    ensures
        frame(c, a), tidy(c, a),
{
    assert forall|k: int| a.blocks@.len() <= k < c.blocks@.len() && k != c.current implies
        settled(#[trigger] c.blocks@[k]) by {
        if k < b.blocks@.len() {
            if k == b.current {
            } else {
                assert(settled(b.blocks@[k]));
                assert(c.blocks@[k].term == b.blocks@[k].term);
            }
        }
    }
}

proof fn lemma_supported_list_prefix(ns: Seq<AstNode>, k: int, names: Seq<Seq<char>>, data: Seq<Seq<u8>>)
    requires
        0 <= k <= ns.len(),
        supported_list(ns, names, data),
    ensures
        supported_list(ns.subrange(0, k), names, data),
    decreases ns.len() - k,
{
    if k < ns.len() {
        let pre = ns.subrange(0, ns.len() - 1);
        lemma_supported_list_prefix(pre, k, names, data);
        assert(pre.subrange(0, k) =~= ns.subrange(0, k));
    } else {
        assert(ns.subrange(0, k) =~= ns);
    }
}

/// The instructions that print the value `v` as three characters and a
/// newline, numbering their results from `base`.
pub open spec fn print_int_insts(v: usize, base: usize) -> Seq<Inst> {
    let space = base;
    let nl = (base + 1) as usize;
    let d100 = (base + 2) as usize;
    let h = (base + 3) as usize;
    let hd = (base + 4) as usize;
    let hz = (base + 5) as usize;
    let c0 = (base + 6) as usize;
    let d10 = (base + 7) as usize;
    let t = (base + 8) as usize;
    let td = (base + 9) as usize;
    let tz = (base + 10) as usize;
    let bz = (base + 11) as usize;
    let c1 = (base + 12) as usize;
    let o = (base + 13) as usize;
    let od = (base + 14) as usize;
    seq![
        Inst::Iconst { dst: space, imm: 32 },
        Inst::Iconst { dst: nl, imm: 10 },
        Inst::UdivImm { dst: d100, arg: v, imm: 100 },
        Inst::UremImm { dst: h, arg: d100, imm: 10 },
        Inst::IaddImm { dst: hd, arg: h, imm: 48 },
        Inst::IcmpEqImm { dst: hz, arg: h, imm: 0 },
        Inst::Select { dst: c0, cond: hz, on_true: space, on_false: hd },
        Inst::Putchar { arg: c0 },
        Inst::UdivImm { dst: d10, arg: v, imm: 10 },
        Inst::UremImm { dst: t, arg: d10, imm: 10 },
        Inst::IaddImm { dst: td, arg: t, imm: 48 },
        Inst::IcmpEqImm { dst: tz, arg: t, imm: 0 },
        Inst::Band { dst: bz, lhs: hz, rhs: tz },
        Inst::Select { dst: c1, cond: bz, on_true: space, on_false: td },
        Inst::Putchar { arg: c1 },
        Inst::UremImm { dst: o, arg: v, imm: 10 },
        Inst::IaddImm { dst: od, arg: o, imm: 48 },
        Inst::Putchar { arg: od },
        Inst::Putchar { arg: nl },
    ]
}

/// `new` follows from `old` by a lowering step that may have failed.
pub open spec fn stepped(new: Compiler, old: Compiler) -> bool {
    &&& new.wf()
    &&& new.data == old.data
    &&& new.vars == old.vars
    &&& frame(new.builder, old.builder)
}

/// `new` follows from `old` by a lowering step that succeeded.
pub open spec fn lowered(new: Compiler, old: Compiler) -> bool {
    &&& stepped(new, old)
    &&& new.builder.is_open()
    &&& tidy(new.builder, old.builder)
}

/// `a@ == b@`, character by character.
pub fn text_eq(a: &str, b: &str) -> (r: bool)
    ensures
        r == (a@ == b@),
{
    let n = a.unicode_len();
    if n != b.unicode_len() {
        return false;
    }
    let mut i: usize = 0;
    while i < n
        invariant
            n == a@.len(),
            n == b@.len(),
            i <= n,
            a@.subrange(0, i as int) == b@.subrange(0, i as int),
        decreases n - i,
    {
        if a.get_char(i) != b.get_char(i) {
            return false;
        }
        assert(a@.subrange(0, i + 1) =~= a@.subrange(0, i as int).push(a@[i as int]));
        assert(b@.subrange(0, i + 1) =~= b@.subrange(0, i as int).push(b@[i as int]));
        i = i + 1;
    }
    assert(a@ =~= a@.subrange(0, n as int));
    assert(b@ =~= b@.subrange(0, n as int));
    true
}

/// The instruction that the operator `name` lowers to.
pub open spec fn binop_inst(name: Seq<char>, dst: usize, lhs: usize, rhs: usize) -> Inst {
    if name == "&&"@ {
        Inst::Band { dst, lhs, rhs }
    } else if name == "=="@ {
        Inst::IcmpEq { dst, lhs, rhs }
    } else {
        Inst::Urem { dst, lhs, rhs }
    }
}

/// The instructions of `b` end with `tail`.
pub open spec fn ends_with(b: Block, tail: Seq<Inst>) -> bool {
    b.insts@.len() >= tail.len() && b.insts@.subrange(b.insts@.len() - tail.len(), b.insts@.len() as int) == tail
}

/// What lowering an `if` leaves: a block that branches on a value to two
/// distinct new blocks, the true block where it is nonzero and the false
/// block where it is zero; the insertion point is a third new block, the
/// merge block, which two distinct new blocks, one ending each side, jump
/// to.
pub open spec fn if_shape(old: FnBuilder, new: FnBuilder) -> bool {
    &&& new.current >= old.blocks@.len()
    &&& exists|xt: int, xf: int| #![trigger new.blocks@[xt], new.blocks@[xf]]
        old.blocks@.len() <= xt < new.blocks@.len() && old.blocks@.len() <= xf < new.blocks@.len()
        && xt != xf
        && new.blocks@[xt].term == Terminator::Jump { target: new.current }
        && new.blocks@[xf].term == Terminator::Jump { target: new.current }
    &&& exists|b0: int| 0 <= b0 < new.blocks@.len()
        && ((#[trigger] new.blocks@[b0]).term matches Terminator::Brz { if_zero, if_nonzero, .. }
        && old.blocks@.len() <= if_zero < new.blocks@.len()
        && old.blocks@.len() <= if_nonzero < new.blocks@.len()
        && if_zero != if_nonzero && if_zero != new.current && if_nonzero != new.current)
}

/// What lowering `for (ident; first, last)` leaves when the value it returns
/// is `v`: the old current block stores `first` in the slot of `ident` and
/// jumps to a new compare block; the compare block reads the slot, tests it
/// `<= last` and branches to the new body block when that holds, else to the
/// new exit block, which is the insertion point; a block reached from the
/// body adds one to the slot and jumps back to the compare block.
pub open spec fn for_shape(old: Compiler, new: Compiler, ident: Seq<char>, first: i64, last: i64, v: usize) -> bool {
    let n0 = old.builder.num_values;
    let cmp = old.builder.blocks@.len();
    exists|slot: usize, x: usize| #![trigger old.vars@[slot as int], new.builder.blocks@[x as int]] {
        &&& slot < old.vars@.len() && old.vars@[slot as int]@ == ident
        &&& new.builder.blocks@[old.builder.current as int].insts@ == old.builder.cur_block().insts@
            + seq![Inst::Iconst { dst: n0, imm: first }, Inst::DefVar { slot, src: n0 }]
        &&& new.builder.blocks@[old.builder.current as int].term == Terminator::Jump { target: cmp as usize }
        &&& new.builder.current == cmp + 2
        &&& new.builder.blocks@[cmp as int].insts@ == seq![
            Inst::UseVar { dst: (n0 + 1) as usize, slot },
            Inst::IcmpSleImm { dst: (n0 + 2) as usize, arg: (n0 + 1) as usize, imm: last },
        ]
        &&& new.builder.blocks@[cmp as int].term == Terminator::Brz {
            cond: (n0 + 2) as usize,
            if_zero: (cmp + 2) as usize,
            if_nonzero: (cmp + 1) as usize,
        }
        &&& x < new.builder.blocks@.len() && (x == cmp + 1 || x >= cmp + 3)
        &&& new.builder.blocks@[x as int].term == Terminator::Jump { target: cmp as usize }
        &&& ends_with(new.builder.blocks@[x as int], seq![
            Inst::IaddImm { dst: (v - 1) as usize, arg: (n0 + 1) as usize, imm: 1 },
            Inst::DefVar { slot, src: (v - 1) as usize },
        ])
    }
}

/// What lowering `if (c) { t } else { f }` leaves when `c`, `t` and `f` are
/// straight-line: the old current block gets the instructions of `c` and
/// branches on its value, to the new block numbered `old.blocks@.len()`
/// (the true block) when it is nonzero and to the next one (the false block)
/// when it is zero; the true block holds the instructions of `t`, the false
/// block those of `f`, and both jump to the third new block, the merge block,
/// which is the insertion point.
pub open spec fn if_straight_shape(old: Compiler, new: Compiler, c: AstNode, t: Seq<AstNode>, f: Seq<AstNode>) -> bool {
    let n0 = old.builder.num_values as nat;
    let l = old.builder.blocks@.len();
    let bt = n0 + expr_size(c);
    let bf = bt + list_size(t);
    let merge = Terminator::Jump { target: (l + 2) as usize };
    &&& new.builder.current == l + 2
    &&& new.builder.blocks@[old.builder.current as int].insts@
        == old.builder.cur_block().insts@ + expr_insts(c, n0, old.names(), old.strings())
    &&& new.builder.blocks@[old.builder.current as int].term == Terminator::Brz {
        cond: expr_result(c, n0) as usize,
        if_zero: (l + 1) as usize,
        if_nonzero: l as usize,
    }
    &&& new.builder.blocks@[l as int].insts@ == list_insts(t, bt, old.names(), old.strings())
    &&& new.builder.blocks@[l as int].term == merge
    &&& new.builder.blocks@[(l + 1) as int].insts@ == list_insts(f, bf, old.names(), old.strings())
    &&& new.builder.blocks@[(l + 1) as int].term == merge
    &&& new.builder.blocks@[(l + 2) as int].insts@ == seq![Inst::Iconst { dst: (bf + list_size(f)) as usize, imm: 0 }]
    &&& new.builder.num_values == bf + list_size(f) + 1
}

/// What lowering `for (ident; first, last) { body }` leaves when `body` is
/// straight-line and `v` is the value returned, with the loop variable's slot
/// the first one named `ident`: the old current block stores `first` in the
/// slot; the compare block reads it and tests it against `last`; the body
/// block holds the instructions of `body`, then the increment of the slot by
/// one from the value the compare block read, then a jump back to the
/// compare block; the exit block holds the placeholder value.
pub open spec fn for_body_shape(
    old: Compiler,
    new: Compiler,
    ident: Seq<char>,
    first: i64,
    last: i64,
    body: Seq<AstNode>,
    v: usize,
) -> bool {
    let n0 = old.builder.num_values as nat;
    let cmp = old.builder.blocks@.len();
    let slot = first_index(old.names(), ident) as usize;
    &&& v == n0 + 4 + list_size(body)
    &&& new.builder.blocks@[(cmp + 1) as int].insts@ == list_insts(body, n0 + 3, old.names(), old.strings()) + seq![
        Inst::IaddImm { dst: (v - 1) as usize, arg: (n0 + 1) as usize, imm: 1 },
        Inst::DefVar { slot, src: (v - 1) as usize },
    ]
    &&& new.builder.blocks@[(cmp + 1) as int].term == Terminator::Jump { target: cmp as usize }
    &&& new.builder.blocks@[old.builder.current as int].insts@ == old.builder.cur_block().insts@
        + seq![Inst::Iconst { dst: n0 as usize, imm: first }, Inst::DefVar { slot, src: n0 as usize }]
    &&& new.builder.blocks@[cmp as int].insts@ == seq![
        Inst::UseVar { dst: (n0 + 1) as usize, slot },
        Inst::IcmpSleImm { dst: (n0 + 2) as usize, arg: (n0 + 1) as usize, imm: last },
    ]
    &&& new.builder.blocks@[(cmp + 2) as int].insts@ == seq![Inst::Iconst { dst: v, imm: 0 }]
    &&& new.builder.num_values == v + 1
}

/// What lowering `n` leaves behind, by kind of node.
pub open spec fn shape(n: AstNode, old: Compiler, new: Compiler, v: usize) -> bool {
    match n {
        AstNode::Call(name, _) => name@ != "print"@ && is_binop(name@) ==>
            exists|l: usize, r: usize| new.builder.cur_block().insts@.last()
                == #[trigger] binop_inst(name@, v, l, r),
        AstNode::If { cond_expr, true_expr, false_expr } => {
            &&& if_shape(old.builder, new.builder)
            &&& straight(*cond_expr) && straight_list(true_expr@) && straight_list(false_expr@)
                ==> if_straight_shape(old, new, *cond_expr, true_expr@, false_expr@)
        },
        AstNode::For { ident, first, last, body } => {
            &&& for_shape(old, new, ident@, first, last, v)
            &&& straight_list(body@) ==> for_body_shape(old, new, ident@, first, last, body@, v)
        },
        _ => true,
    }
}

/// The node is an expression: a literal, an identifier, an assignment of an
/// expression, or a call whose two operands are expressions; a call with one
/// argument counts as well, whatever that argument is.
pub open spec fn straight(n: AstNode) -> bool
    decreases n,
{
    match n {
        AstNode::Literal(_) => true,
        AstNode::Identifier(_) => true,
        AstNode::Call(_, args) => args@.len() == 1
            || (args@.len() == 2 && straight(args@[0]) && straight(args@[1])),
        AstNode::Assign(_, rhs) => straight(*rhs),
        _ => false,
    }
}

/// How many values lowering the expression `n` defines.
pub open spec fn expr_size(n: AstNode) -> nat
    decreases n,
{
    match n {
        AstNode::Call(name, args) =>
            if name@ == "print"@ {
                if args@.len() > 0 && args@[0] matches AstNode::Literal(AstValue::Text(_)) { 1 } else { 16 }
            } else if args@.len() == 2 {
                expr_size(args@[0]) + expr_size(args@[1]) + 1
            } else {
                0
            },
        AstNode::Assign(_, rhs) => expr_size(*rhs),
        _ => 1,
    }
}

/// The value that holds the result of the expression `n` when its values
/// are numbered from `base`.
pub open spec fn expr_result(n: AstNode, base: nat) -> nat
    decreases n,
{
    match n {
        AstNode::Call(name, args) =>
            if name@ == "print"@ || args@.len() != 2 {
                base
            } else {
                base + expr_size(args@[0]) + expr_size(args@[1])
            },
        AstNode::Assign(_, rhs) => expr_result(*rhs, base),
        _ => base,
    }
}

/// The instructions that lowering the expression `n` appends, numbering
/// values from `base`, with slot table `names` and data table `data`.
pub open spec fn expr_insts(n: AstNode, base: nat, names: Seq<Seq<char>>, data: Seq<Seq<u8>>) -> Seq<Inst>
    decreases n,
{
    let b = base as usize;
    match n {
        AstNode::Literal(AstValue::Int(i)) => seq![Inst::Iconst { dst: b, imm: i }],
        AstNode::Identifier(x) => seq![Inst::UseVar { dst: b, slot: first_index(names, x@) as usize }],
        AstNode::Call(name, args) =>
            if name@ == "print"@ {
                match args@[0] {
                    AstNode::Literal(AstValue::Text(t)) => seq![
                        Inst::SymbolValue { dst: b, data: first_index(data, t@) as usize },
                        Inst::Puts { arg: b },
                    ],
                    AstNode::Literal(AstValue::Int(i)) =>
                        seq![Inst::Iconst { dst: b, imm: i }] + print_int_insts(b, (base + 1) as usize),
                    AstNode::Identifier(x) =>
                        seq![Inst::UseVar { dst: b, slot: first_index(names, x@) as usize }]
                            + print_int_insts(b, (base + 1) as usize),
                    _ => Seq::empty(),
                }
            } else if args@.len() != 2 {
                Seq::empty()
            } else {
                let b1 = base + expr_size(args@[0]);
                expr_insts(args@[0], base, names, data) + expr_insts(args@[1], b1, names, data)
                    + seq![binop_inst(name@, (b1 + expr_size(args@[1])) as usize,
                        expr_result(args@[0], base) as usize, expr_result(args@[1], b1) as usize)]
            },
        AstNode::Assign(name, rhs) => expr_insts(*rhs, base, names, data)
            + seq![Inst::DefVar { slot: first_index(names, name@) as usize, src: expr_result(*rhs, base) as usize }],
        _ => Seq::empty(),
    }
}

/// Every node of `ns` is a straight-line expression.
pub open spec fn straight_list(ns: Seq<AstNode>) -> bool
    decreases ns,
{
    if ns.len() == 0 {
        true
    } else {
        straight_list(ns.subrange(0, ns.len() - 1)) && straight(ns[ns.len() - 1])
    }
}

/// How many values lowering the expressions `ns` in turn defines.
pub open spec fn list_size(ns: Seq<AstNode>) -> nat
    decreases ns,
{
    if ns.len() == 0 {
        0
    } else {
        list_size(ns.subrange(0, ns.len() - 1)) + expr_size(ns[ns.len() - 1])
    }
}

/// The instructions that lowering the expressions `ns` in turn appends,
/// numbering values from `base`.
pub open spec fn list_insts(ns: Seq<AstNode>, base: nat, names: Seq<Seq<char>>, data: Seq<Seq<u8>>) -> Seq<Inst>
    decreases ns,
{
    if ns.len() == 0 {
        Seq::empty()
    } else {
        let pre = ns.subrange(0, ns.len() - 1);
        list_insts(pre, base, names, data) + expr_insts(ns[ns.len() - 1], base + list_size(pre), names, data)
    }
}

/// Whether `n` is an expression, as `straight` says.
pub fn is_straight(n: &AstNode) -> (r: bool)
    ensures
        r == straight(*n),
    decreases n,
{
    match n {
        AstNode::Literal(_) => true,
        AstNode::Identifier(_) => true,
        AstNode::Call(_, args) => args.len() == 1 || (args.len() == 2 && is_straight(&args[0])
            && is_straight(&args[1])),
        AstNode::Assign(_, rhs) => is_straight(rhs),
        _ => false,
    }
}

/// From `old` to `new` only the current block changed: the instructions of
/// the expressions `ns` were appended to it.
pub open spec fn straight_list_effect(old: Compiler, new: Compiler, ns: Seq<AstNode>) -> bool {
    &&& new.builder.current == old.builder.current
    &&& new.builder.blocks@.len() == old.builder.blocks@.len()
    &&& forall|b: int| 0 <= b < old.builder.blocks@.len() && b != old.builder.current ==>
        #[trigger] new.builder.blocks@[b] == old.builder.blocks@[b]
    &&& new.builder.cur_block().sealed == old.builder.cur_block().sealed
    &&& new.builder.cur_block().insts@ == old.builder.cur_block().insts@
        + list_insts(ns, old.builder.num_values as nat, old.names(), old.strings())
    &&& new.builder.num_values == old.builder.num_values + list_size(ns)
}

proof fn lemma_straight_list_prefix(ns: Seq<AstNode>, k: int)
    requires
        0 <= k < ns.len(),
        straight_list(ns),
    ensures
        straight_list(ns.subrange(0, k)),
        straight(ns[k]),
    decreases ns.len() - k,
{
    if k + 1 < ns.len() {
        let pre = ns.subrange(0, ns.len() - 1);
        lemma_straight_list_prefix(pre, k);
        assert(pre.subrange(0, k) =~= ns.subrange(0, k));
    } else {
        assert(ns.subrange(0, ns.len() - 1) =~= ns.subrange(0, k));
    }
}

/// From `old` to `new` only the current block changed: the instructions of
/// the expression `n` were appended to it, and `v` holds its result.
pub open spec fn straight_effect(old: Compiler, new: Compiler, n: AstNode, v: usize) -> bool {
    &&& new.builder.current == old.builder.current
    &&& new.builder.blocks@.len() == old.builder.blocks@.len()
    &&& forall|b: int| 0 <= b < old.builder.blocks@.len() && b != old.builder.current ==>
        #[trigger] new.builder.blocks@[b] == old.builder.blocks@[b]
    &&& new.builder.cur_block().sealed == old.builder.cur_block().sealed
    &&& new.builder.cur_block().insts@ == old.builder.cur_block().insts@
        + expr_insts(n, old.builder.num_values as nat, old.names(), old.strings())
    &&& new.builder.num_values == old.builder.num_values + expr_size(n)
    &&& v == expr_result(n, old.builder.num_values as nat)
}

/// The number of nodes of `n`.
pub open spec fn node_count(n: AstNode) -> nat
    decreases n,
{
    match n {
        AstNode::Call(_, args) => 1 + list_count(args@),
        AstNode::Assign(_, rhs) => 1 + node_count(*rhs),
        AstNode::If { cond_expr, true_expr, false_expr } =>
            1 + node_count(*cond_expr) + list_count(true_expr@) + list_count(false_expr@),
        AstNode::For { body, .. } => 1 + list_count(body@),
        _ => 1,
    }
}

/// The number of nodes of the trees in `ns`.
pub open spec fn list_count(ns: Seq<AstNode>) -> nat
    decreases ns,
{
    if ns.len() == 0 {
        0
    } else {
        list_count(ns.subrange(0, ns.len() - 1)) + node_count(ns[ns.len() - 1])
    }
}

/// The counters of `b` have room for lowering `k` nodes: one node takes at
/// most 32 values and 4 blocks.
pub open spec fn fits(b: FnBuilder, k: nat) -> bool {
    &&& b.num_values + 32 * (k + 1) < usize::MAX
    &&& b.blocks@.len() + 4 * (k + 1) < usize::MAX
}

/// From `old` to `new` at most the values and blocks of `k` lowering steps
/// were used.
pub open spec fn within(new: FnBuilder, old: FnBuilder, k: nat) -> bool {
    &&& new.num_values <= old.num_values + 32 * k
    &&& new.blocks@.len() <= old.blocks@.len() + 4 * k
}

proof fn lemma_list_count_two(ns: Seq<AstNode>)
    requires
        ns.len() == 2,
    ensures
        list_count(ns) == node_count(ns[0]) + node_count(ns[1]),
{
    lemma_list_count_prefix(ns, 0);
    lemma_list_count_prefix(ns, 1);
    assert(ns.subrange(0, 0) =~= Seq::<AstNode>::empty());
    assert(list_count(Seq::<AstNode>::empty()) == 0);
    assert(ns.subrange(0, 2) =~= ns);
}

proof fn lemma_list_count_prefix(ns: Seq<AstNode>, k: int)
    requires
        0 <= k < ns.len(),
    ensures
        list_count(ns.subrange(0, k + 1)) == list_count(ns.subrange(0, k)) + node_count(ns[k]),
        list_count(ns.subrange(0, k + 1)) <= list_count(ns),
    decreases ns.len() - k,
{
    assert(ns.subrange(0, k + 1).subrange(0, k) =~= ns.subrange(0, k));
    if k + 1 < ns.len() {
        let pre = ns.subrange(0, ns.len() - 1);
        lemma_list_count_prefix(pre, k);
        assert(pre.subrange(0, k + 1) =~= ns.subrange(0, k + 1));
        assert(pre.subrange(0, k) =~= ns.subrange(0, k));
    } else {
        assert(ns.subrange(0, k + 1) =~= ns);
    }
}

/// The lowering context of one function: the builder, the data table and
/// the slot table.
pub struct Compiler {
    pub builder: FnBuilder,
    pub data: Vec<Vec<u8>>,
    pub vars: Vec<String>,
}

impl Compiler {
    pub open spec fn wf(&self) -> bool {
        &&& self.builder.wf()
        &&& self.builder.num_slots == self.vars@.len()
        &&& self.builder.num_data == self.data@.len()
    }

    pub open spec fn names(&self) -> Seq<Seq<char>> {
        names_view(self.vars@)
    }

    pub open spec fn strings(&self) -> Seq<Seq<u8>> {
        data_view(self.data@)
    }

    /// There is room for one more lowering step: 32 values and 4 blocks.
    fn has_room(&self) -> (r: bool)
        ensures
            r == (self.builder.num_values < usize::MAX - 32
                && self.builder.blocks@.len() < usize::MAX - 4),
    {
        self.builder.num_values < usize::MAX - 32
            && self.builder.blocks.len() < usize::MAX - 4
    }

    /// Emits the instructions that print the value `v` as three characters
    /// and a newline: hundreds, tens and ones, with a zero hundreds digit, and
    /// a zero tens digit under it, shown as a space.
    fn compile_print_int_value(&mut self, v: usize)
        requires
            old(self).wf(),
            old(self).builder.is_open(),
            v < old(self).builder.num_values,
            old(self).builder.num_values < usize::MAX - 16,
        ensures
            final(self).wf(),
            final(self).builder.is_open(),
            final(self).builder.num_values == old(self).builder.num_values + 15,
            final(self).builder.current == old(self).builder.current,
            final(self).builder.blocks@.len() == old(self).builder.blocks@.len(),
            forall|b: int| 0 <= b < old(self).builder.blocks@.len() && b != old(self).builder.current ==>
                #[trigger] final(self).builder.blocks@[b] == old(self).builder.blocks@[b],
            final(self).builder.cur_block().insts@ == old(self).builder.cur_block().insts@
                + print_int_insts(v, old(self).builder.num_values),
            final(self).builder.cur_block().sealed == old(self).builder.cur_block().sealed,
            final(self).builder.num_slots == old(self).builder.num_slots,
            final(self).builder.num_data == old(self).builder.num_data,
            final(self).data == old(self).data,
            final(self).vars == old(self).vars,
    {
        let ghost start = self.builder;
        let b = &mut self.builder;
        let space = b.num_values;
        b.ins_value(Inst::Iconst { dst: space, imm: 32 });
        let nl = b.num_values;
        b.ins_value(Inst::Iconst { dst: nl, imm: 10 });

        // Hundreds column.
        let d100 = b.num_values;
        b.ins_value(Inst::UdivImm { dst: d100, arg: v, imm: 100 });
        let h = b.num_values;
        b.ins_value(Inst::UremImm { dst: h, arg: d100, imm: 10 });
        let hd = b.num_values;
        b.ins_value(Inst::IaddImm { dst: hd, arg: h, imm: 48 });
        let hz = b.num_values;
        b.ins_value(Inst::IcmpEqImm { dst: hz, arg: h, imm: 0 });
        let c0 = b.num_values;
        b.ins_value(Inst::Select { dst: c0, cond: hz, on_true: space, on_false: hd });
        b.ins(Inst::Putchar { arg: c0 });

        // Tens column.
        let d10 = b.num_values;
        b.ins_value(Inst::UdivImm { dst: d10, arg: v, imm: 10 });
        let t = b.num_values;
        b.ins_value(Inst::UremImm { dst: t, arg: d10, imm: 10 });
        let td = b.num_values;
        b.ins_value(Inst::IaddImm { dst: td, arg: t, imm: 48 });
        let tz = b.num_values;
        b.ins_value(Inst::IcmpEqImm { dst: tz, arg: t, imm: 0 });
        let bz = b.num_values;
        b.ins_value(Inst::Band { dst: bz, lhs: hz, rhs: tz });
        let c1 = b.num_values;
        b.ins_value(Inst::Select { dst: c1, cond: bz, on_true: space, on_false: td });
        b.ins(Inst::Putchar { arg: c1 });

        // Ones column, then the newline.
        let o = b.num_values;
        b.ins_value(Inst::UremImm { dst: o, arg: v, imm: 10 });
        let od = b.num_values;
        b.ins_value(Inst::IaddImm { dst: od, arg: o, imm: 48 });
        b.ins(Inst::Putchar { arg: od });
        b.ins(Inst::Putchar { arg: nl });
        assert(self.builder.cur_block().insts@ =~= start.cur_block().insts@
            + print_int_insts(v, start.num_values));
    }

    /// Lowers one node into the current block and the blocks it creates,
    /// and returns the value that the node computes.
    pub fn compile_code(&mut self, node: &AstNode) -> (r: Result<usize, LowerError>)
        requires
            old(self).wf(),
            old(self).builder.is_open(),
        ensures
            stepped(*final(self), *old(self)),
            match r {
                Ok(v) => lowered(*final(self), *old(self)) && v < final(self).builder.num_values
                    && supported(*node, old(self).names(), old(self).strings())
                    && shape(*node, *old(self), *final(self), v)
                    && (straight(*node) ==> straight_effect(*old(self), *final(self), *node, v)),
                Err(e) => supported(*node, old(self).names(), old(self).strings())
                    ==> e == LowerError::TooLarge,
            },
            supported(*node, old(self).names(), old(self).strings()) && fits(old(self).builder, node_count(*node)) ==> r is Ok,
            r is Ok ==> within(final(self).builder, old(self).builder, node_count(*node)),
            r matches Ok(v) ==> lowers_node(old(self).builder, final(self).builder, old(self).names(),
                old(self).strings(), *node, v),
            r matches Err(e) ==> (e != LowerError::TooLarge ==> lower_error(*node, old(self).names(), old(self).strings()) == Some(e)),
        decreases node, 1nat,
    {
        if !self.has_room() {
            return Err(LowerError::TooLarge);
        }
        let res = match node {
            AstNode::Literal(AstValue::Int(i)) => {
                let v = self.builder.num_values;
                self.builder.ins_value(Inst::Iconst { dst: v, imm: *i });
                assert(self.builder.cur_block().insts@ =~= old(self).builder.cur_block().insts@
                    + expr_insts(*node, v as nat, self.names(), self.strings()));
                Ok(v)
            },
            AstNode::Literal(AstValue::Text(_)) => Err(LowerError::UnsupportedConstruct),
            AstNode::Identifier(name) => {
                match find_slot(&self.vars, name) {
                    Some(slot) => {
                        assert(self.names()[slot as int] == name@);
                        let v = self.builder.num_values;
                        self.builder.ins_value(Inst::UseVar { dst: v, slot });
                        assert(self.builder.cur_block().insts@ =~= old(self).builder.cur_block().insts@
                            + expr_insts(*node, v as nat, self.names(), self.strings()));
                        Ok(v)
                    },
                    None => Err(LowerError::UnboundIdentifier),
                }
            },
            AstNode::Call(..) => self.compile_call(node),
            AstNode::Assign(name, rhs) => {
                if !is_straight(rhs) {
                    return Err(LowerError::UnsupportedConstruct);
                }
                let ghost s0 = *self;
                let v = self.compile_code(rhs)?;
                match find_slot(&self.vars, name) {
                    Some(slot) => {
                        assert(self.names()[slot as int] == name@);
                        let ghost s1 = *self;
                        self.builder.ins(Inst::DefVar { slot, src: v });
                        proof {
                            assert(frame(self.builder, s1.builder));
                            assert(tidy(self.builder, s1.builder));
                            lemma_frame_tidy_trans(s0.builder, s1.builder, self.builder);
                            if straight(*node) {
                                assert(self.builder.cur_block().insts@ =~= s0.builder.cur_block().insts@
                                    + expr_insts(*node, s0.builder.num_values as nat, s0.names(), s0.strings()));
                            }
                        }
                        Ok(v)
                    },
                    None => {
                        proof { lemma_supported_no_error(**rhs, s0.names(), s0.strings()); }
                        Err(LowerError::UnboundIdentifier)
                    },
                }
            },
            AstNode::If { .. } => self.compile_if(node),
            AstNode::For { .. } => self.compile_for(node),
        };
        proof {
            if res is Ok && straight(*node) {
                lemma_straight_lowers(*old(self), *self, *node, res.unwrap());
            }
        }
        res
    }

    /// Lowers each node of `nodes` in turn.
    pub fn compile_list(&mut self, nodes: &Vec<AstNode>) -> (r: Result<(), LowerError>)
        requires
            old(self).wf(),
            old(self).builder.is_open(),
        ensures
            stepped(*final(self), *old(self)),
            match r {
                Ok(_) => lowered(*final(self), *old(self))
                    && supported_list(nodes@, old(self).names(), old(self).strings()),
                Err(e) => supported_list(nodes@, old(self).names(), old(self).strings())
                    ==> e == LowerError::TooLarge,
            },
            supported_list(nodes@, old(self).names(), old(self).strings()) && fits(old(self).builder, list_count(nodes@)) ==> r is Ok,
            r is Ok ==> within(final(self).builder, old(self).builder, list_count(nodes@)),
            r is Ok && straight_list(nodes@) ==> straight_list_effect(*old(self), *final(self), nodes@),
            r is Ok ==> lowers_list(old(self).builder, final(self).builder, old(self).names(),
                old(self).strings(), nodes@),
            r matches Err(e) ==> (e != LowerError::TooLarge ==> list_error(nodes@, old(self).names(), old(self).strings()) == Some(e)),
        decreases nodes, 0nat,
    {
        let ghost start = *self;
        let mut i: usize = 0;
        assert(nodes@.subrange(0, 0) =~= Seq::<AstNode>::empty());
        proof { lemma_empty_list_lowers(self.builder, self.names(), self.strings()); }
        while i < nodes.len()
            invariant
                i <= nodes@.len(),
                start == *old(self),
                lowered(*self, start),
                within(self.builder, start.builder, list_count(nodes@.subrange(0, i as int))),
                straight_list(nodes@) ==> straight_list_effect(start, *self, nodes@.subrange(0, i as int)),
                lowers_list(start.builder, self.builder, start.names(), start.strings(), nodes@.subrange(0, i as int)),
                start.wf(),
                supported_list(nodes@.subrange(0, i as int), start.names(), start.strings()),
            decreases nodes@.len() - i,
        {
            let ghost mid = *self;
            assert(nodes@.subrange(0, i + 1).subrange(0, i as int) =~= nodes@.subrange(0, i as int));
            proof { lemma_list_count_prefix(nodes@, i as int); }
            let res = self.compile_code(&nodes[i]);
            match res {
                Ok(v) => {
                    proof {
                        lemma_list_step(start.builder, mid.builder, self.builder, start.names(), start.strings(),
                            nodes@.subrange(0, i as int), nodes@[i as int], v, nodes@.subrange(0, i + 1));
                        lemma_frame_tidy_trans(start.builder, mid.builder, self.builder);
                        if straight_list(nodes@) {
                            lemma_straight_list_prefix(nodes@, i as int);
                            let pre = nodes@.subrange(0, i as int);
                            let pre1 = nodes@.subrange(0, i + 1);
                            assert(pre1.subrange(0, pre1.len() - 1) =~= pre);
                            assert(pre1[pre1.len() - 1] == nodes@[i as int]);
                            assert(self.builder.cur_block().insts@ =~= start.builder.cur_block().insts@
                                + list_insts(pre1, start.builder.num_values as nat, start.names(), start.strings()));
                        }
                    }
                },
                Err(e) => {
                    proof {
                        lemma_frame_trans(start.builder, mid.builder, self.builder);
                        if supported_list(nodes@, start.names(), start.strings()) {
                            lemma_supported_list_prefix(nodes@, (i + 1) as int, start.names(), start.strings());
                        }
                        assert(!(supported_list(nodes@, start.names(), start.strings())
                            && fits(start.builder, list_count(nodes@))));
                        lemma_supported_list_no_error(nodes@.subrange(0, i as int), start.names(), start.strings());
                        let pre1 = nodes@.subrange(0, i + 1);
                        assert(pre1.subrange(0, pre1.len() - 1) =~= nodes@.subrange(0, i as int));
                        if e != LowerError::TooLarge {
                            lemma_list_error_prefix(nodes@, i + 1, start.names(), start.strings());
                        }
                    }
                    return Err(e);
                },
            }
            i = i + 1;
        }
        assert(nodes@.subrange(0, i as int) =~= nodes@);
        assert(list_count(Seq::<AstNode>::empty()) == 0);
        Ok(())
    }

    /// Lowers a call: `print` of one argument, or one of the binary
    /// operators `&&` (bitwise and), `==` (1 or 0) and `%` (unsigned
    /// remainder) on two operands.
    #[verifier::rlimit(60)]
    fn compile_call(&mut self, node: &AstNode) -> (r: Result<usize, LowerError>)
        requires
            old(self).wf(),
            old(self).builder.is_open(),
            old(self).builder.num_values < usize::MAX - 32,
            old(self).builder.blocks@.len() < usize::MAX - 4,
            node is Call,
        ensures
            stepped(*final(self), *old(self)),
            match r {
                Ok(v) => lowered(*final(self), *old(self)) && v < final(self).builder.num_values
                    && supported(*node, old(self).names(), old(self).strings())
                    && shape(*node, *old(self), *final(self), v)
                    && (straight(*node) ==> straight_effect(*old(self), *final(self), *node, v)),
                Err(e) => supported(*node, old(self).names(), old(self).strings())
                    ==> e == LowerError::TooLarge,
            },
            supported(*node, old(self).names(), old(self).strings()) && fits(old(self).builder, node_count(*node)) ==> r is Ok,
            r is Ok ==> within(final(self).builder, old(self).builder, node_count(*node)),
            r matches Err(e) ==> (e != LowerError::TooLarge ==> lower_error(*node, old(self).names(), old(self).strings()) == Some(e)),
        decreases node, 0nat,
    {
        match node {
            AstNode::Call(name, args) => {
                if text_eq(name.as_str(), "print") {
                    if args.len() != 1 {
                        return Err(LowerError::UnsupportedConstruct);
                    }
                    let ghost s0 = *self;
                    let ghost base = self.builder.num_values as nat;
                    match &args[0] {
                        AstNode::Literal(AstValue::Text(s)) => {
                            let r = self.compile_print_str(s);
                            assert(r is Ok ==> self.builder.cur_block().insts@ =~= s0.builder.cur_block().insts@
                                + expr_insts(*node, base, s0.names(), s0.strings()));
                            r
                        },
                        AstNode::Literal(AstValue::Int(i)) => {
                            let v = self.compile_print_int(*i);
                            assert(self.builder.cur_block().insts@ =~= s0.builder.cur_block().insts@
                                + expr_insts(*node, base, s0.names(), s0.strings()));
                            Ok(v)
                        },
                        AstNode::Identifier(x) => {
                            let r = self.compile_print_sym(x);
                            assert(r is Ok ==> self.builder.cur_block().insts@ =~= s0.builder.cur_block().insts@
                                + expr_insts(*node, base, s0.names(), s0.strings()));
                            r
                        },
                        _ => Err(LowerError::UnsupportedConstruct),
                    }
                } else {
                    let is_and = text_eq(name.as_str(), "&&");
                    let is_eq = text_eq(name.as_str(), "==");
                    let is_rem = text_eq(name.as_str(), "%");
                    if args.len() != 2 || !(is_and || is_eq || is_rem) || !is_straight(&args[0])
                        || !is_straight(&args[1]) {
                        return Err(LowerError::UnsupportedConstruct);
                    }
                    let ghost s0 = *self;
                    proof { lemma_list_count_two(args@); }
                    let lhs = self.compile_code(&args[0])?;
                    let ghost s1 = *self;
                    let res = self.compile_code(&args[1]);
                    let rhs = match res {
                        Ok(rhs) => rhs,
                        Err(e) => {
                            proof {
                                lemma_frame_trans(s0.builder, s1.builder, self.builder);
                                lemma_supported_no_error(args@[0], s0.names(), s0.strings());
                            }
                            return Err(e);
                        },
                    };
                    let ghost s2 = *self;
                    proof {
                        lemma_frame_tidy_trans(s0.builder, s1.builder, s2.builder);
                    }
                    if !self.has_room() {
                        return Err(LowerError::TooLarge);
                    }
                    let dst = self.builder.num_values;
                    if is_and {
                        self.builder.ins_value(Inst::Band { dst, lhs, rhs });
                    } else if is_eq {
                        self.builder.ins_value(Inst::IcmpEq { dst, lhs, rhs });
                    } else {
                        self.builder.ins_value(Inst::Urem { dst, lhs, rhs });
                    }
                    proof {
                        assert(frame(self.builder, s2.builder));
                        assert(tidy(self.builder, s2.builder));
                        lemma_frame_tidy_trans(s0.builder, s2.builder, self.builder);
                        assert(self.builder.cur_block().insts@.last() == binop_inst(name@, dst, lhs, rhs));
                        if straight(*node) {
                            let base = s0.builder.num_values as nat;
                            assert(self.builder.cur_block().insts@ =~= s0.builder.cur_block().insts@
                                + expr_insts(*node, base, s0.names(), s0.strings()));
                        }
                    }
                    Ok(dst)
                }
            },
            _ => Err(LowerError::UnsupportedConstruct),
        }
    }

    /// Prints a string literal through its data symbol.
    fn compile_print_str(&mut self, str_val: &Vec<u8>) -> (r: Result<usize, LowerError>)
        requires
            old(self).wf(),
            old(self).builder.is_open(),
            old(self).builder.num_values < usize::MAX - 32,
        ensures
            stepped(*final(self), *old(self)),
            match r {
                Ok(v) => {
                    &&& lowered(*final(self), *old(self))
                    &&& v == old(self).builder.num_values
                    &&& final(self).builder.num_values == v + 1
                    &&& final(self).builder.current == old(self).builder.current
                    &&& final(self).builder.blocks@.len() == old(self).builder.blocks@.len()
                    &&& old(self).strings().contains(str_val@)
                    &&& final(self).builder.cur_block().insts@ == old(self).builder.cur_block().insts@
                        + seq![
                            Inst::SymbolValue { dst: v, data: first_index(old(self).strings(), str_val@) as usize },
                            Inst::Puts { arg: v },
                        ]
                },
                Err(e) => !old(self).strings().contains(str_val@) && e == LowerError::UnsupportedConstruct,
            },
    {
        match find_data(&self.data, str_val) {
            Some(d) => {
                let ghost start = *self;
                let v = self.builder.num_values;
                self.builder.ins_value(Inst::SymbolValue { dst: v, data: d });
                self.builder.ins(Inst::Puts { arg: v });
                assert(data_view(self.data@)[d as int] == str_val@);
                assert(self.builder.cur_block().insts@ =~= start.builder.cur_block().insts@
                    + seq![Inst::SymbolValue { dst: v, data: d }, Inst::Puts { arg: v }]);
                Ok(v)
            },
            None => Err(LowerError::UnsupportedConstruct),
        }
    }

    /// Prints an integer literal.
    fn compile_print_int(&mut self, int_val: i64) -> (v: usize)
        requires
            old(self).wf(),
            old(self).builder.is_open(),
            old(self).builder.num_values < usize::MAX - 32,
        ensures
            lowered(*final(self), *old(self)),
            v == old(self).builder.num_values,
            final(self).builder.current == old(self).builder.current,
            final(self).builder.blocks@.len() == old(self).builder.blocks@.len(),
            final(self).builder.num_values == v + 16,
            final(self).builder.cur_block().insts@ == old(self).builder.cur_block().insts@
                + seq![Inst::Iconst { dst: v, imm: int_val }] + print_int_insts(v, (v + 1) as usize),
    {
        let ghost start = *self;
        let v = self.builder.num_values;
        self.builder.ins_value(Inst::Iconst { dst: v, imm: int_val });
        self.compile_print_int_value(v);
        v
    }

    /// Prints the integer in the slot of `ident`.
    fn compile_print_sym(&mut self, ident: &String) -> (r: Result<usize, LowerError>)
        requires
            old(self).wf(),
            old(self).builder.is_open(),
            old(self).builder.num_values < usize::MAX - 32,
        ensures
            stepped(*final(self), *old(self)),
            match r {
                Ok(v) => {
                    &&& lowered(*final(self), *old(self))
                    &&& v == old(self).builder.num_values
                    &&& final(self).builder.num_values == v + 16
                    &&& final(self).builder.current == old(self).builder.current
                    &&& final(self).builder.blocks@.len() == old(self).builder.blocks@.len()
                    &&& old(self).names().contains(ident@)
                    &&& final(self).builder.cur_block().insts@ == old(self).builder.cur_block().insts@
                        + seq![Inst::UseVar { dst: v, slot: first_index(old(self).names(), ident@) as usize }]
                        + print_int_insts(v, (v + 1) as usize)
                },
                Err(e) => !old(self).names().contains(ident@) && e == LowerError::UnboundIdentifier,
            },
    {
        match find_slot(&self.vars, ident) {
            Some(slot) => {
                assert(self.names()[slot as int] == ident@);
                let v = self.builder.num_values;
                self.builder.ins_value(Inst::UseVar { dst: v, slot });
                self.compile_print_int_value(v);
                Ok(v)
            },
            None => Err(LowerError::UnboundIdentifier),
        }
    }

    /// Lowers `if (cond) { true_expr } else { false_expr }`: the current
    /// block branches on the condition to a true block when it is nonzero and
    /// to a false block when it is zero; both end with a jump to a merge block,
    /// which is sealed once both jumps exist and becomes the current block.
    #[verifier::rlimit(100)]
    #[verifier::spinoff_prover]
    fn compile_if(&mut self, node: &AstNode) -> (r: Result<usize, LowerError>)
        requires
            old(self).wf(),
            old(self).builder.is_open(),
            old(self).builder.num_values < usize::MAX - 32,
            old(self).builder.blocks@.len() < usize::MAX - 4,
            node is If,
        ensures
            stepped(*final(self), *old(self)),
            match r {
                Ok(v) => lowered(*final(self), *old(self)) && v < final(self).builder.num_values
                    && supported(*node, old(self).names(), old(self).strings())
                    && shape(*node, *old(self), *final(self), v),
                Err(e) => supported(*node, old(self).names(), old(self).strings())
                    ==> e == LowerError::TooLarge,
            },
            supported(*node, old(self).names(), old(self).strings()) && fits(old(self).builder, node_count(*node)) ==> r is Ok,
            r is Ok ==> within(final(self).builder, old(self).builder, node_count(*node)),
            r matches Ok(v) ==> lowers_node(old(self).builder, final(self).builder, old(self).names(),
                old(self).strings(), *node, v),
            r matches Err(e) ==> (e != LowerError::TooLarge ==> lower_error(*node, old(self).names(), old(self).strings()) == Some(e)),
        decreases node, 0nat,
    {
        match node {
            AstNode::If { cond_expr, true_expr, false_expr } => {
                if !is_straight(cond_expr) {
                    return Err(LowerError::UnsupportedConstruct);
                }
                let ghost s0 = *self;
                let cond_val = self.compile_code(cond_expr)?;
                if !self.has_room() {
                    return Err(LowerError::TooLarge);
                }
                let ghost s1 = *self;
                let true_block = self.builder.create_block();
                let false_block = self.builder.create_block();
                let final_block = self.builder.create_block();

                // Branch on the condition.
                self.builder.terminate(
                    Terminator::Brz { cond: cond_val, if_zero: false_block, if_nonzero: true_block },
                );

                // The true block: its one predecessor is known.
                self.builder.switch_to_block(true_block);
                self.builder.seal_block(true_block);
                let ghost s2 = *self;
                assert(frame(s2.builder, s0.builder));
                let res = self.compile_list(true_expr);
                if res.is_err() {
                    proof {
                        lemma_frame_trans(s0.builder, s2.builder, self.builder);
                        lemma_supported_no_error(**cond_expr, s0.names(), s0.strings());
                    }
                    return Err(res.unwrap_err());
                }
                let ghost s3 = *self;
                self.builder.terminate(Terminator::Jump { target: final_block });
                let ghost s3b = *self;

                // The false block.
                self.builder.switch_to_block(false_block);
                self.builder.seal_block(false_block);
                let ghost s4 = *self;
                assert(frame(s4.builder, s0.builder));
                let res = self.compile_list(false_expr);
                if res.is_err() {
                    proof {
                        lemma_frame_trans(s0.builder, s4.builder, self.builder);
                        lemma_supported_no_error(**cond_expr, s0.names(), s0.strings());
                        lemma_supported_list_no_error(true_expr@, s0.names(), s0.strings());
                    }
                    return Err(res.unwrap_err());
                }
                let ghost s5 = *self;
                self.builder.terminate(Terminator::Jump { target: final_block });
                let ghost s5b = *self;

                // The merge block has both of its predecessors now.
                self.builder.switch_to_block(final_block);
                self.builder.seal_block(final_block);
                let ghost s6 = *self;
                proof {
                    assert forall|b: int| s0.builder.blocks@.len() <= b < s6.builder.blocks@.len()
                        && b != s6.builder.current implies settled(#[trigger] s6.builder.blocks@[b]) by {
                        if b < s1.builder.blocks@.len() {
                            if b == s1.builder.current {
                                assert(s6.builder.blocks@[b].term == s2.builder.blocks@[b].term);
                            } else {
                                assert(settled(s1.builder.blocks@[b]));
                            }
                        } else if b == true_block {
                            assert(s6.builder.blocks@[b].term == s4.builder.blocks@[b].term);
                            assert(s6.builder.blocks@[b].sealed == s4.builder.blocks@[b].sealed);
                        } else if b == false_block {
                        } else if b < s3.builder.blocks@.len() {
                            if b != s3.builder.current {
                                assert(settled(s3.builder.blocks@[b]));
                            }
                        } else if b < s5.builder.blocks@.len() {
                            if b != s5.builder.current {
                                assert(settled(s5.builder.blocks@[b]));
                            }
                        }
                    }
                    assert(tidy(s6.builder, s0.builder));
                }
                if !self.has_room() {
                    return Err(LowerError::TooLarge);
                }
                // The statement computes no value of its own.
                let v = self.builder.num_values;
                self.builder.ins_value(Inst::Iconst { dst: v, imm: 0 });
                proof {
                    assert(frame(self.builder, s6.builder));
                    assert(tidy(self.builder, s6.builder));
                    lemma_frame_tidy_trans(s0.builder, s6.builder, self.builder);
                    let b0 = s1.builder.current as int;
                    let brz = Terminator::Brz { cond: cond_val, if_zero: false_block, if_nonzero: true_block };
                    assert(self.builder.blocks@[b0].term == brz);
                    let xt = s3.builder.current as int;
                    let xf = s5.builder.current as int;
                    let jm = Terminator::Jump { target: final_block };
                    assert(self.builder.blocks@[xt].term == jm);
                    assert(self.builder.blocks@[xf].term == jm);
                    assert(if_shape(s0.builder, self.builder));
                    assert(if_built(s0.builder, s1.builder, s2.builder, s3.builder, s4.builder, s5.builder,
                        self.builder, cond_val, v)) by {
                        let l = s0.builder.blocks@.len() as int;
                        assert(s6.builder.cur_block().insts@.len() == 0);
                        assert(self.builder.cur_block().insts@ =~= seq![Inst::Iconst { dst: v, imm: 0 }]);
                        assert(s2.builder.cur_block().insts@.len() == 0);
                        assert(s4.builder.cur_block().insts@.len() == 0);
                        assert(self.builder.blocks@[b0].insts@ == s1.builder.cur_block().insts@);
                        assert(self.builder.blocks@[xt].insts@ == s3.builder.cur_block().insts@);
                        assert(self.builder.blocks@[xf].insts@ == s5.builder.cur_block().insts@);
                        assert forall|k: int| (l + 3 <= k < s3.builder.blocks@.len() || k == l) && k != xt implies
                            #[trigger] self.builder.blocks@[k].insts@ == s3.builder.blocks@[k].insts@
                            && self.builder.blocks@[k].term == s3.builder.blocks@[k].term by {
                            assert(s3b.builder.blocks@[k] == s3.builder.blocks@[k]);
                            assert(s4.builder.blocks@[k] == s3.builder.blocks@[k]);
                            assert(s5.builder.blocks@[k] == s4.builder.blocks@[k]);
                            assert(s5b.builder.blocks@[k] == s5.builder.blocks@[k]);
                            assert(s6.builder.blocks@[k] == s5b.builder.blocks@[k]);
                        }
                        assert forall|k: int| (s4.builder.blocks@.len() <= k < s5.builder.blocks@.len() || k == l + 1)
                            && k != xf implies
                            #[trigger] self.builder.blocks@[k].insts@ == s5.builder.blocks@[k].insts@
                            && self.builder.blocks@[k].term == s5.builder.blocks@[k].term by {
                            assert(s5b.builder.blocks@[k] == s5.builder.blocks@[k]);
                            assert(s6.builder.blocks@[k] == s5b.builder.blocks@[k]);
                        }
                    }
                    lemma_if_lowers(s0.builder, s1.builder, s2.builder, s3.builder, s4.builder, s5.builder,
                        self.builder, s0.names(), s0.strings(), *node, cond_val, v);
                    if straight(**cond_expr) && straight_list(true_expr@) && straight_list(false_expr@) {
                        let l = s0.builder.blocks@.len() as int;
                        assert(s1.builder.current == s0.builder.current);
                        assert(true_block == l && false_block == l + 1 && final_block == l + 2);
                        assert(s3.builder.current == true_block);
                        assert(s5.builder.current == false_block);
                        assert(s3.builder.blocks@[l].insts@ =~= list_insts(true_expr@,
                            (s0.builder.num_values + expr_size(**cond_expr)) as nat, s0.names(), s0.strings()));
                        assert(s5.builder.blocks@[l + 1].insts@ =~= list_insts(false_expr@,
                            (s0.builder.num_values + expr_size(**cond_expr) + list_size(true_expr@)) as nat,
                            s0.names(), s0.strings()));
                        assert(self.builder.blocks@[l].insts@ == s3.builder.blocks@[l].insts@);
                        assert(self.builder.blocks@[l + 1].insts@ == s5.builder.blocks@[l + 1].insts@);
                        assert(self.builder.blocks@[b0].insts@ == s1.builder.blocks@[b0].insts@);
                        assert(self.builder.blocks@[l + 2].insts@ =~= seq![Inst::Iconst { dst: v, imm: 0 }]);
                        assert(if_straight_shape(s0, *self, **cond_expr, true_expr@, false_expr@));
                    }
                }
                Ok(v)
            },
            _ => Err(LowerError::UnsupportedConstruct),
        }
    }

    /// Lowers `for (ident; first, last) { body }`: the slot of `ident` is set
    /// to `first`; a compare block tests `ident <= last` (signed) and goes to
    /// the body when it holds, else to the exit block; the body ends by adding
    /// one to the slot and jumping back to the compare block. The compare block
    /// is sealed only after that back edge exists. The exit block becomes the
    /// current block.
    #[verifier::rlimit(100)]
    #[verifier::spinoff_prover]
    fn compile_for(&mut self, node: &AstNode) -> (r: Result<usize, LowerError>)
        requires
            old(self).wf(),
            old(self).builder.is_open(),
            old(self).builder.num_values < usize::MAX - 32,
            old(self).builder.blocks@.len() < usize::MAX - 4,
            node is For,
        ensures
            stepped(*final(self), *old(self)),
            match r {
                Ok(v) => lowered(*final(self), *old(self)) && v < final(self).builder.num_values
                    && supported(*node, old(self).names(), old(self).strings())
                    && shape(*node, *old(self), *final(self), v),
                Err(e) => supported(*node, old(self).names(), old(self).strings())
                    ==> e == LowerError::TooLarge,
            },
            supported(*node, old(self).names(), old(self).strings()) && fits(old(self).builder, node_count(*node)) ==> r is Ok,
            r is Ok ==> within(final(self).builder, old(self).builder, node_count(*node)),
            r matches Ok(v) ==> lowers_node(old(self).builder, final(self).builder, old(self).names(),
                old(self).strings(), *node, v),
            r matches Err(e) ==> (e != LowerError::TooLarge ==> lower_error(*node, old(self).names(), old(self).strings()) == Some(e)),
        decreases node, 0nat,
    {
        match node {
            AstNode::For { ident, first, last, body } => {
                let slot = match find_slot(&self.vars, ident) {
                    Some(slot) => {
                        assert(self.names()[slot as int] == ident@);
                        slot
                    },
                    None => {
                        return Err(LowerError::UnboundIdentifier);
                    },
                };
                if !(-0x8000_0000 <= *first && *first < 0x8000_0000 && -0x8000_0000 <= *last && *last < 0x7fff_ffff) {
                    return Err(LowerError::UnsupportedConstruct);
                }
                let ghost s0 = *self;
                let ghost start_insts = self.builder.cur_block().insts@;
                let first_val = self.builder.num_values;
                self.builder.ins_value(Inst::Iconst { dst: first_val, imm: *first });
                self.builder.ins(Inst::DefVar { slot, src: first_val });

                let cmp_block = self.builder.create_block();
                let body_block = self.builder.create_block();
                let final_block = self.builder.create_block();
                self.builder.terminate(Terminator::Jump { target: cmp_block });

                // The compare block; its back edge comes later, so it stays unsealed.
                self.builder.switch_to_block(cmp_block);
                let iter_val = self.builder.num_values;
                self.builder.ins_value(Inst::UseVar { dst: iter_val, slot });
                let in_range = self.builder.num_values;
                self.builder.ins_value(Inst::IcmpSleImm { dst: in_range, arg: iter_val, imm: *last });
                self.builder.terminate(
                    Terminator::Brz { cond: in_range, if_zero: final_block, if_nonzero: body_block },
                );

                let ghost entry = self.builder.blocks@[s0.builder.current as int];
                let ghost cmp_state = self.builder.blocks@[cmp_block as int];
                self.builder.switch_to_block(body_block);
                let ghost s1 = *self;
                assert(frame(s1.builder, s0.builder));
                let res = self.compile_list(body);
                if res.is_err() {
                    proof { lemma_frame_trans(s0.builder, s1.builder, self.builder); }
                    return Err(res.unwrap_err());
                }
                let ghost s2 = *self;
                if !self.has_room() {
                    proof { lemma_frame_trans(s0.builder, s1.builder, self.builder); }
                    return Err(LowerError::TooLarge);
                }
                let next_val = self.builder.num_values;
                let ghost x_before = self.builder.cur_block().insts@;
                self.builder.ins_value(Inst::IaddImm { dst: next_val, arg: iter_val, imm: 1 });
                self.builder.ins(Inst::DefVar { slot, src: next_val });
                self.builder.terminate(Terminator::Jump { target: cmp_block });
                let ghost x_block = self.builder.cur_block();
                proof {
                    let tail = seq![
                        Inst::IaddImm { dst: next_val, arg: iter_val, imm: 1 },
                        Inst::DefVar { slot, src: next_val },
                    ];
                    assert(x_block.insts@ == x_before + tail);
                    assert(x_block.insts@.subrange(x_block.insts@.len() - 2, x_block.insts@.len() as int) =~= tail);
                }

                // Every edge is known now, the back edge included.
                self.builder.switch_to_block(final_block);
                self.builder.seal_block(cmp_block);
                self.builder.seal_block(body_block);
                self.builder.seal_block(final_block);
                let ghost s3 = *self;
                proof {
                    assert forall|b: int| s0.builder.blocks@.len() <= b < s3.builder.blocks@.len()
                        && b != s3.builder.current implies settled(#[trigger] s3.builder.blocks@[b]) by {
                        if b == cmp_block || b == body_block {
                        } else if b < s2.builder.blocks@.len() && b != s2.builder.current {
                            assert(settled(s2.builder.blocks@[b]));
                        }
                    }
                    assert(tidy(s3.builder, s0.builder));
                }
                if !self.has_room() {
                    return Err(LowerError::TooLarge);
                }
                // The statement computes no value of its own.
                let v = self.builder.num_values;
                self.builder.ins_value(Inst::Iconst { dst: v, imm: 0 });
                proof {
                    assert(frame(self.builder, s3.builder));
                    assert(tidy(self.builder, s3.builder));
                    lemma_frame_tidy_trans(s0.builder, s3.builder, self.builder);
                    let x = s2.builder.current;
                    let c = cmp_block as int;
                    let e = s0.builder.current as int;
                    assert(entry.insts@ =~= start_insts
                        + seq![Inst::Iconst { dst: first_val, imm: *first }, Inst::DefVar { slot, src: first_val }]);
                    assert(cmp_state.insts@ =~= seq![
                        Inst::UseVar { dst: iter_val, slot },
                        Inst::IcmpSleImm { dst: in_range, arg: iter_val, imm: *last },
                    ]);
                    assert(s2.builder.blocks@[c] == s1.builder.blocks@[c]);
                    assert(s2.builder.blocks@[e] == s1.builder.blocks@[e]);
                    assert(self.builder.blocks@[c].insts@ == cmp_state.insts@);
                    assert(self.builder.blocks@[e].insts@ == entry.insts@);
                    assert(self.builder.blocks@[x as int].insts@ == x_block.insts@);
                    assert(self.builder.blocks@[x as int].term == x_block.term);
                    assert(s0.vars@[slot as int]@ == ident@);
                    assert(for_shape(s0, *self, ident@, *first, *last, v));
                    assert(for_built(s0.builder, s1.builder, s2.builder, self.builder, slot as nat, *first, *last, v)) by {
                        let l = c;
                        assert(s3.builder.cur_block().insts@.len() == 0);
                        assert(self.builder.cur_block().insts@ =~= seq![Inst::Iconst { dst: v, imm: 0 }]);
                        assert(self.builder.blocks@[e].term == Terminator::Jump { target: cmp_block });
                        assert forall|k: int| (l + 3 <= k < s2.builder.blocks@.len() || k == l + 1) && k != x as int implies
                            #[trigger] self.builder.blocks@[k].insts@ == s2.builder.blocks@[k].insts@
                            && self.builder.blocks@[k].term == s2.builder.blocks@[k].term by {
                            assert(s3.builder.blocks@[k].insts@ == s2.builder.blocks@[k].insts@);
                        }
                    }
                    lemma_for_lowers(s0.builder, s1.builder, s2.builder, self.builder, s0.names(), s0.strings(), *node,
                        slot as nat, v);
                    if straight_list(body@) {
                        let c1 = cmp_block as int + 1;
                        assert(x == body_block);
                        assert(x_before =~= list_insts(body@, (s0.builder.num_values + 3) as nat,
                            s0.names(), s0.strings()));
                        assert(slot == first_index(s0.names(), ident@));
                        assert(self.builder.blocks@[c1].insts@ == x_block.insts@);
                        assert(self.builder.blocks@[c1 + 1].insts@ =~= seq![Inst::Iconst { dst: v, imm: 0 }]);
                        assert(for_body_shape(s0, *self, ident@, *first, *last, body@, v));
                    }
                }
                Ok(v)
            },
            _ => Err(LowerError::UnsupportedConstruct),
        }
    }
}

/// Lowers a whole program into one function: first the data table and the
/// slot table are built, then the code, which ends with a return. Lowering
/// succeeds exactly on the programs that `supported` accepts with those
/// tables, unless the function would outgrow the counters; it does succeed
/// on them when 32 values per node fit in a `usize`.
pub fn compile_program(program: &AstNode) -> (r: Result<Function, LowerError>)
    ensures
        match r {
            Ok(f) => {
                &&& f.wf()
                &&& data_view(f.data@) == intern_node(Seq::empty(), *program)
                &&& f.num_slots == alloc_node(Seq::empty(), *program).len()
                &&& supported(*program, alloc_node(Seq::empty(), *program),
                    intern_node(Seq::empty(), *program))
            },
            Err(e) => (supported(*program, alloc_node(Seq::empty(), *program),
                intern_node(Seq::empty(), *program)) ==> e == LowerError::TooLarge)
                && (e != LowerError::TooLarge ==> lower_error(*program, alloc_node(Seq::empty(), *program),
                    intern_node(Seq::empty(), *program)) == Some(e)),
        },
        supported(*program, alloc_node(Seq::empty(), *program), intern_node(Seq::empty(), *program))
            && 32 * (node_count(*program) + 1) < usize::MAX ==> r is Ok,
        r matches Ok(f) ==> (intern_node(Seq::empty(), *program).len() < 0x1_0000_0000 ==> forall|fuel: nat|
            #[trigger] program_runs(f, *program, alloc_node(Seq::empty(), *program), intern_node(Seq::empty(), *program), fuel)),
{
    let mut data: Vec<Vec<u8>> = Vec::new();
    assert(data_view(data@) =~= Seq::empty());
    compile_data(&mut data, program);
    let mut vars: Vec<String> = Vec::new();
    assert(names_view(vars@) =~= Seq::empty());
    declare_all_variables(&mut vars, program);

    let builder = FnBuilder::new(vars.len(), data.len());
    let mut compiler = Compiler { builder, data, vars };
    let ghost start = compiler;
    let v = compiler.compile_code(program)?;
    let ghost after = compiler;
    compiler.builder.terminate(Terminator::Return);
    let Compiler { builder, data, vars } = compiler;
    proof {
        assert forall|b: int| 0 <= b < builder.blocks@.len() implies settled(#[trigger] builder.blocks@[b]) by {
            if b != builder.current as int && b != 0 {
                assert(settled(builder.blocks@[b]));
            }
        }
    }
    let f = Function {
        blocks: builder.blocks,
        num_values: builder.num_values,
        num_slots: builder.num_slots,
        data,
    };
    proof {
        let names = alloc_node(Seq::empty(), *program);
        let strs = intern_node(Seq::empty(), *program);
        assert(data_of(f) =~= strs);
        if strs.len() < 0x1_0000_0000 {
            let c = after.builder.current as int;
            assert forall|k: int| start.builder.blocks@.len() <= k < after.builder.blocks@.len() && k != after.builder.current implies
                #[trigger] agree(f, after.builder, k) by {}
            if start.builder.current != after.builder.current {
                assert(agree(f, after.builder, 0));
            }
            assert(prefix_of(after.builder.cur_block().insts@, f.blocks@[c].insts@));
            assert(extends(f, after.builder, start.builder));
            assert forall|fuel: nat| #[trigger] program_runs(f, *program, names, strs, fuel) by {
                lemma_program_runs(f, start.builder, after.builder, names, strs, *program, v, fuel);
            }
        }
    }
    Ok(f)
}

} // verus!
