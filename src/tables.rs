use vstd::prelude::*;
use crate::ast::{AstNode, AstValue};

verus! {

/// The contents of a data table, one byte string per symbol.
pub open spec fn data_view(v: Seq<Vec<u8>>) -> Seq<Seq<u8>> {
    Seq::new(v.len(), |i: int| v[i]@)
}

/// The names of a slot table, one per slot.
pub open spec fn names_view(v: Seq<String>) -> Seq<Seq<char>> {
    Seq::new(v.len(), |i: int| v[i]@)
}

/// `tab` with `x` appended, unless it already holds it.
pub open spec fn add_unique<A>(tab: Seq<A>, x: A) -> Seq<A> {
    if tab.contains(x) { tab } else { tab.push(x) }
}

/// The data table after visiting `n` in pre-order: every string literal
/// not yet present is added.
pub open spec fn intern_node(tab: Seq<Seq<u8>>, n: AstNode) -> Seq<Seq<u8>>
    decreases n,
{
    match n {
        AstNode::Literal(AstValue::Text(s)) => add_unique(tab, s@),
        AstNode::Call(_, args) => intern_list(tab, args@),
        AstNode::Assign(_, rhs) => intern_node(tab, *rhs),
        AstNode::If { cond_expr, true_expr, false_expr } =>
            intern_list(intern_list(intern_node(tab, *cond_expr), true_expr@), false_expr@),
        AstNode::For { body, .. } => intern_list(tab, body@),
        _ => tab,
    }
}

/// `intern_node` over a list of nodes, left to right.
pub open spec fn intern_list(tab: Seq<Seq<u8>>, ns: Seq<AstNode>) -> Seq<Seq<u8>>
    decreases ns,
{
    if ns.len() == 0 {
        tab
    } else {
        intern_node(intern_list(tab, ns.subrange(0, ns.len() - 1)), ns[ns.len() - 1])
    }
}

/// The slot table after visiting `n`: every assigned name and every loop
/// variable not yet present is added, in the order first seen.
pub open spec fn alloc_node(tab: Seq<Seq<char>>, n: AstNode) -> Seq<Seq<char>>
    decreases n,
{
    match n {
        AstNode::Assign(name, _) => add_unique(tab, name@),
        AstNode::If { true_expr, false_expr, .. } =>
            alloc_list(alloc_list(tab, true_expr@), false_expr@),
        AstNode::For { ident, body, .. } => alloc_list(add_unique(tab, ident@), body@),
        _ => tab,
    }
}

/// `alloc_node` over a list of nodes, left to right.
pub open spec fn alloc_list(tab: Seq<Seq<char>>, ns: Seq<AstNode>) -> Seq<Seq<char>>
    decreases ns,
{
    if ns.len() == 0 {
        tab
    } else {
        alloc_node(alloc_list(tab, ns.subrange(0, ns.len() - 1)), ns[ns.len() - 1])
    }
}

/// The index of the first occurrence of `x` in `s`, or `s.len()` when there
/// is none.
pub open spec fn first_index<A>(s: Seq<A>, x: A) -> nat
    decreases s.len(),
{
    if s.len() == 0 {
        0
    } else if s[0] == x {
        0
    } else {
        1 + first_index(s.drop_first(), x)
    }
}

pub proof fn lemma_first_index<A>(s: Seq<A>, x: A, i: int)
    requires
        0 <= i < s.len(),
        s[i] == x,
        forall|j: int| 0 <= j < i ==> s[j] != x,
    ensures
        first_index(s, x) == i,
    decreases i,
{
    if i > 0 {
        lemma_first_index(s.drop_first(), x, i - 1);
    }
}

pub proof fn lemma_first_index_found<A>(s: Seq<A>, x: A)
    requires
        s.contains(x),
    ensures
        first_index(s, x) < s.len(),
        s[first_index(s, x) as int] == x,
    decreases s.len(),
{
    if s[0] != x {
        let k = choose|k: int| 0 <= k < s.len() && s[k] == x;
        assert(s.drop_first()[k - 1] == x);
        lemma_first_index_found(s.drop_first(), x);
    }
}

pub fn bytes_eq(a: &Vec<u8>, b: &Vec<u8>) -> (r: bool)
    ensures
        r == (a@ == b@),
{
    if a.len() != b.len() {
        return false;
    }
    let mut i: usize = 0;
    while i < a.len()
        invariant
            a@.len() == b@.len(),
            i <= a@.len(),
            a@.subrange(0, i as int) == b@.subrange(0, i as int),
        decreases a@.len() - i,
    {
        if a[i] != b[i] {
            assert(a@[i as int] != b@[i as int]);
            return false;
        }
        assert(a@.subrange(0, i + 1) =~= a@.subrange(0, i as int).push(a@[i as int]));
        assert(b@.subrange(0, i + 1) =~= b@.subrange(0, i as int).push(b@[i as int]));
        i = i + 1;
    }
    assert(a@ =~= a@.subrange(0, i as int));
    assert(b@ =~= b@.subrange(0, i as int));
    true
}

/// Index of the symbol that holds `s`, if any.
pub fn find_data(data: &Vec<Vec<u8>>, s: &Vec<u8>) -> (r: Option<usize>)
    ensures
        match r {
            Some(i) => i < data@.len() && data@[i as int]@ == s@
                && (forall|j: int| 0 <= j < i ==> data@[j]@ != s@)
                && i == first_index(data_view(data@), s@),
            None => !data_view(data@).contains(s@),
        },
{
    let mut i: usize = 0;
    while i < data.len()
        invariant
            i <= data@.len(),
            forall|j: int| 0 <= j < i ==> data@[j]@ != s@,
        decreases data@.len() - i,
    {
        if bytes_eq(&data[i], s) {
            proof {
                assert forall|j: int| 0 <= j < i implies data_view(data@)[j] != s@ by {
                    assert(data@[j]@ != s@);
                }
                lemma_first_index(data_view(data@), s@, i as int);
            }
            return Some(i);
        }
        i = i + 1;
    }
    proof {
        if data_view(data@).contains(s@) {
            let j = choose|j: int| 0 <= j < data_view(data@).len() && data_view(data@)[j] == s@;
            assert(data@[j]@ == s@);
        }
    }
    None
}

/// Index of the slot named `name`, if any.
pub fn find_slot(vars: &Vec<String>, name: &String) -> (r: Option<usize>)
    ensures
        match r {
            Some(i) => i < vars@.len() && vars@[i as int]@ == name@
                && (forall|j: int| 0 <= j < i ==> vars@[j]@ != name@)
                && i == first_index(names_view(vars@), name@),
            None => !names_view(vars@).contains(name@),
        },
{
    let mut i: usize = 0;
    while i < vars.len()
        invariant
            i <= vars@.len(),
            forall|j: int| 0 <= j < i ==> vars@[j]@ != name@,
        decreases vars@.len() - i,
    {
        if vars[i] == *name {
            proof {
                assert forall|j: int| 0 <= j < i implies names_view(vars@)[j] != name@ by {
                    assert(vars@[j]@ != name@);
                }
                lemma_first_index(names_view(vars@), name@, i as int);
            }
            return Some(i);
        }
        i = i + 1;
    }
    proof {
        if names_view(vars@).contains(name@) {
            let j = choose|j: int| 0 <= j < names_view(vars@).len() && names_view(vars@)[j] == name@;
            assert(vars@[j]@ == name@);
        }
    }
    None
}

/// Gives `str_val` a data symbol unless one already holds the same bytes.
pub fn declare_imm_string(data: &mut Vec<Vec<u8>>, str_val: &Vec<u8>)
    ensures
        data_view(final(data)@) == add_unique(data_view(old(data)@), str_val@),
{
    match find_data(data, str_val) {
        Some(_) => {
            proof {
                let i = choose|i: int| 0 <= i < data@.len() && data@[i]@ == str_val@;
                assert(data_view(data@)[i] == str_val@);
            }
        },
        None => {
            data.push(str_val.clone());
            assert(data_view(data@) =~= data_view(old(data)@).push(str_val@));
        },
    }
}

/// Gives `name` a slot unless it already has one.
pub fn declare_variable(vars: &mut Vec<String>, name: &String)
    ensures
        names_view(final(vars)@) == add_unique(names_view(old(vars)@), name@),
{
    match find_slot(vars, name) {
        Some(i) => {
            assert(names_view(vars@)[i as int] == name@);
        },
        None => {
            vars.push(name.clone());
            assert(names_view(vars@) =~= names_view(old(vars)@).push(name@));
        },
    }
}

} // verus!

verus! {

/// Gives every distinct string literal of `program` a data symbol, visiting
/// the tree in pre-order.
pub fn compile_data(data: &mut Vec<Vec<u8>>, program: &AstNode)
    ensures
        data_view(final(data)@) == intern_node(data_view(old(data)@), *program),
    decreases program,
{
    match program {
        AstNode::Literal(AstValue::Text(str_val)) => declare_imm_string(data, str_val),
        AstNode::Literal(_) => {},
        AstNode::Identifier(_) => {},
        AstNode::Call(_, args) => compile_data_list(data, args),
        AstNode::Assign(_, rhs) => compile_data(data, rhs),
        AstNode::If { cond_expr, true_expr, false_expr } => {
            compile_data(data, cond_expr);
            compile_data_list(data, true_expr);
            compile_data_list(data, false_expr);
        },
        AstNode::For { body, .. } => compile_data_list(data, body),
    }
}

/// `compile_data` over each node of `nodes` in turn.
pub fn compile_data_list(data: &mut Vec<Vec<u8>>, nodes: &Vec<AstNode>)
    ensures
        data_view(final(data)@) == intern_list(data_view(old(data)@), nodes@),
    decreases nodes,
{
    let mut i: usize = 0;
    while i < nodes.len()
        invariant
            i <= nodes@.len(),
            data_view(data@) == intern_list(data_view(old(data)@), nodes@.subrange(0, i as int)),
        decreases nodes@.len() - i,
    {
        assert(nodes@.subrange(0, i + 1).subrange(0, i as int) =~= nodes@.subrange(0, i as int));
        compile_data(data, &nodes[i]);
        i = i + 1;
    }
    assert(nodes@.subrange(0, i as int) =~= nodes@);
}

/// Gives every assigned name and every loop variable of `program` a slot,
/// in the order first seen.
pub fn declare_all_variables(vars: &mut Vec<String>, program: &AstNode)
    ensures
        names_view(final(vars)@) == alloc_node(names_view(old(vars)@), *program),
    decreases program,
{
    match program {
        AstNode::Assign(name, _) => declare_variable(vars, name),
        AstNode::If { true_expr, false_expr, .. } => {
            declare_variables_list(vars, true_expr);
            declare_variables_list(vars, false_expr);
        },
        AstNode::For { ident, body, .. } => {
            declare_variable(vars, ident);
            declare_variables_list(vars, body);
        },
        _ => {},
    }
}

/// `declare_all_variables` over each node of `nodes` in turn.
pub fn declare_variables_list(vars: &mut Vec<String>, nodes: &Vec<AstNode>)
    ensures
        names_view(final(vars)@) == alloc_list(names_view(old(vars)@), nodes@),
    decreases nodes,
{
    let mut i: usize = 0;
    while i < nodes.len()
        invariant
            i <= nodes@.len(),
            names_view(vars@) == alloc_list(names_view(old(vars)@), nodes@.subrange(0, i as int)),
        decreases nodes@.len() - i,
    {
        assert(nodes@.subrange(0, i + 1).subrange(0, i as int) =~= nodes@.subrange(0, i as int));
        declare_all_variables(vars, &nodes[i]);
        i = i + 1;
    }
    assert(nodes@.subrange(0, i as int) =~= nodes@);
}

} // verus!

verus! {

/// The string literal `s` occurs in `n`.
pub open spec fn has_text(n: AstNode, s: Seq<u8>) -> bool
    decreases n,
{
    match n {
        AstNode::Literal(AstValue::Text(t)) => t@ == s,
        AstNode::Call(_, args) => has_text_list(args@, s),
        AstNode::Assign(_, rhs) => has_text(*rhs, s),
        AstNode::If { cond_expr, true_expr, false_expr } =>
            has_text(*cond_expr, s) || has_text_list(true_expr@, s) || has_text_list(false_expr@, s),
        AstNode::For { body, .. } => has_text_list(body@, s),
        _ => false,
    }
}

/// The string literal `s` occurs in one of `ns`.
pub open spec fn has_text_list(ns: Seq<AstNode>, s: Seq<u8>) -> bool
    decreases ns,
{
    if ns.len() == 0 {
        false
    } else {
        has_text_list(ns.subrange(0, ns.len() - 1), s) || has_text(ns[ns.len() - 1], s)
    }
}

proof fn lemma_add_unique<A>(tab: Seq<A>, x: A)
    requires
        tab.no_duplicates(),
    ensures
        add_unique(tab, x).no_duplicates(),
        forall|y: A| add_unique(tab, x).contains(y) <==> (tab.contains(y) || y == x),
{
    if !tab.contains(x) {
        let t = tab.push(x);
        assert forall|i: int, j: int| 0 <= i < t.len() && 0 <= j < t.len() && i != j
            implies t[i] != t[j] by {
            if i < tab.len() && j < tab.len() {
            } else if i < tab.len() {
                assert(tab.contains(tab[i]));
            } else {
                assert(tab.contains(tab[j]));
            }
        }
        assert forall|y: A| t.contains(y) <==> (tab.contains(y) || y == x) by {
            if t.contains(y) {
                let k = choose|k: int| 0 <= k < t.len() && t[k] == y;
                if k < tab.len() {
                    assert(tab[k] == y);
                }
            }
            if tab.contains(y) {
                let k = choose|k: int| 0 <= k < tab.len() && tab[k] == y;
                assert(t[k] == y);
            }
            if y == x {
                assert(t[tab.len() as int] == y);
            }
        }
    }
}

proof fn lemma_intern_node(tab: Seq<Seq<u8>>, n: AstNode)
    requires
        tab.no_duplicates(),
    ensures
        intern_node(tab, n).no_duplicates(),
        forall|s: Seq<u8>| #[trigger] intern_node(tab, n).contains(s) <==> (tab.contains(s) || has_text(n, s)),
    decreases n,
{
    match n {
        AstNode::Literal(AstValue::Text(t)) => lemma_add_unique(tab, t@),
        AstNode::Call(_, args) => lemma_intern_list(tab, args@),
        AstNode::Assign(_, rhs) => lemma_intern_node(tab, *rhs),
        AstNode::If { cond_expr, true_expr, false_expr } => {
            let t1 = intern_node(tab, *cond_expr);
            let t2 = intern_list(t1, true_expr@);
            lemma_intern_node(tab, *cond_expr);
            lemma_intern_list(t1, true_expr@);
            lemma_intern_list(t2, false_expr@);
        },
        AstNode::For { body, .. } => lemma_intern_list(tab, body@),
        _ => {},
    }
}

proof fn lemma_intern_list(tab: Seq<Seq<u8>>, ns: Seq<AstNode>)
    requires
        tab.no_duplicates(),
    ensures
        intern_list(tab, ns).no_duplicates(),
        forall|s: Seq<u8>| #[trigger] intern_list(tab, ns).contains(s) <==> (tab.contains(s) || has_text_list(ns, s)),
    decreases ns,
{
    if ns.len() > 0 {
        let pre = ns.subrange(0, ns.len() - 1);
        lemma_intern_list(tab, pre);
        lemma_intern_node(intern_list(tab, pre), ns[ns.len() - 1]);
    }
}

/// Interning a program from an empty table gives one symbol to each distinct
/// string literal of the program and to nothing else: two literals share a
/// symbol exactly when their bytes are equal.
pub proof fn lemma_one_symbol_per_literal(program: AstNode)
    ensures
        intern_node(Seq::empty(), program).no_duplicates(),
        forall|s: Seq<u8>| #[trigger] intern_node(Seq::empty(), program).contains(s)
            <==> has_text(program, s),
{
    lemma_intern_node(Seq::empty(), program);
}

} // verus!
