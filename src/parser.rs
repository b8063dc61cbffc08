use vstd::prelude::*;
use crate::ast::{AstNode, AstValue};
use crate::lower::is_binop;

verus! {

/// What the parser expected where it failed.
#[derive(Clone, Copy, Debug, PartialEq, Eq, Structural)]
pub enum Expected {
    /// A keyword or punctuation mark.
    Token,
    Identifier,
    Integer,
    StringLiteral,
    EndOfInput,
}

/// A parse failure: the furthest character offset at which a match failed,
/// and what was expected there.
#[derive(Clone, Copy, Debug, PartialEq, Eq, Structural)]
pub struct ParseError {
    pub offset: usize,
    pub expected: Expected,
}

pub open spec fn is_ws(c: char) -> bool {
    c == ' ' || c == '\n' || c == '\r' || c == '\t'
}

pub open spec fn is_id_start(c: char) -> bool {
    ('A' <= c && c <= 'Z') || ('a' <= c && c <= 'z') || c == '_'
}

pub open spec fn is_digit(c: char) -> bool {
    '0' <= c && c <= '9'
}

pub open spec fn is_id_char(c: char) -> bool {
    is_id_start(c) || is_digit(c)
}

/// `s` holds `c` at `i`.
pub open spec fn has_at(s: Seq<char>, i: int, c: char) -> bool {
    0 <= i < s.len() && s[i] == c
}

/// The end of the comment that starts at `i`: the next line break or the
/// end of the text.
pub open spec fn comment_end(s: Seq<char>, i: int) -> int
    decreases s.len() - i,
{
    if i >= s.len() || s[i] == '\n' || s[i] == '\r' {
        i
    } else {
        comment_end(s, i + 1)
    }
}

/// Where the run of whitespace and `//` comments that starts at `i` ends.
pub open spec fn skip_spec(s: Seq<char>, i: int) -> int
    decreases s.len() - i,
{
    if i < 0 || i >= s.len() {
        i
    } else if is_ws(s[i]) {
        skip_spec(s, i + 1)
    } else if s[i] == '/' && has_at(s, i + 1, '/') {
        let e = comment_end(s, i + 2);
        if e <= i || e > s.len() { i } else { skip_spec(s, e) }
    } else {
        i
    }
}

proof fn lemma_comment_end(s: Seq<char>, i: int)
    requires
        0 <= i,
    ensures
        i <= comment_end(s, i),
        i <= s.len() ==> comment_end(s, i) <= s.len(),
    decreases s.len() - i,
{
    if !(i >= s.len() || s[i] == '\n' || s[i] == '\r') {
        lemma_comment_end(s, i + 1);
    }
}

proof fn lemma_skip_bounds(s: Seq<char>, i: int)
    requires
        0 <= i <= s.len(),
    ensures
        i <= skip_spec(s, i) <= s.len(),
    decreases s.len() - i,
{
    if i < s.len() {
        if is_ws(s[i]) {
            lemma_skip_bounds(s, i + 1);
        } else if s[i] == '/' && has_at(s, i + 1, '/') {
            lemma_comment_end(s, i + 2);
            let e = comment_end(s, i + 2);
            if e > i {
                lemma_skip_bounds(s, e);
            }
        }
    }
}

/// The characters of `input`, one by one.
pub fn chars_of(input: &str) -> (r: Vec<char>)
    ensures
        r@ == input@,
{
    let n = input.unicode_len();
    let mut r: Vec<char> = Vec::new();
    while r.len() < n
        invariant
            n == input@.len(),
            r@.len() <= n,
            r@ == input@.subrange(0, r@.len() as int),
        decreases n - r@.len(),
    {
        let c = input.get_char(r.len());
        let ghost k = r@.len();
        r.push(c);
        assert(input@.subrange(0, (k + 1) as int) =~= input@.subrange(0, k as int).push(c));
    }
    assert(input@.subrange(0, n as int) =~= input@);
    r
}

fn at(s: &Vec<char>, i: usize, c: char) -> (r: bool)
    ensures
        r == has_at(s@, i as int, c),
{
    i < s.len() && s[i] == c
}

fn comment_end_exec(s: &Vec<char>, i: usize) -> (r: usize)
    requires
        i <= s@.len(),
    ensures
        r == comment_end(s@, i as int),
{
    let mut j = i;
    while j < s.len() && s[j] != '\n' && s[j] != '\r'
        invariant
            i <= j <= s@.len(),
            comment_end(s@, j as int) == comment_end(s@, i as int),
        decreases s@.len() - j,
    {
        j = j + 1;
    }
    j
}

/// Skips whitespace and `//` comments from `i`.
pub fn skip(s: &Vec<char>, i: usize) -> (r: usize)
    requires
        i <= s@.len(),
    ensures
        r == skip_spec(s@, i as int),
        i <= r <= s@.len(),
{
    let mut j = i;
    proof { lemma_skip_bounds(s@, i as int); }
    loop
        invariant
            i <= j <= s@.len(),
            skip_spec(s@, j as int) == skip_spec(s@, i as int),
        decreases s@.len() - j,
    {
        if j < s.len() && (s[j] == ' ' || s[j] == '\n' || s[j] == '\r' || s[j] == '\t') {
            j = j + 1;
        } else if j < s.len() && s[j] == '/' && at(s, j + 1, '/') {
            let e = comment_end_exec(s, j + 2);
            proof { lemma_comment_end(s@, j + 2); }
            j = e;
        } else {
            return j;
        }
    }
}

/// The value of a run of decimal digits.
pub open spec fn decimal_value(ds: Seq<char>) -> int
    decreases ds.len(),
{
    if ds.len() == 0 {
        0
    } else {
        decimal_value(ds.drop_last()) * 10 + (ds.last() as int - '0' as int)
    }
}

/// The furthest failure seen so far.
pub struct ParseState {
    pub far: usize,
    pub expected: Expected,
}

impl ParseState {
    /// Records that `e` was expected at `pos`, unless a failure further on
    /// is already known.
    fn fail(&mut self, pos: usize, e: Expected)
        ensures
            final(self).far == if pos >= old(self).far { pos } else { old(self).far },
    {
        if pos >= self.far {
            self.far = pos;
            self.expected = e;
        }
    }
}

/// The text starts with `w` at `i`.
pub open spec fn has_word(s: Seq<char>, i: int, w: Seq<char>) -> bool {
    0 <= i && i + w.len() <= s.len() && s.subrange(i, i + w.len()) == w
}

fn word_at(s: &Vec<char>, i: usize, w: &str) -> (r: bool)
    requires
        i <= s@.len(),
    ensures
        r == has_word(s@, i as int, w@),
{
    let n = w.unicode_len();
    if n > s.len() - i {
        return false;
    }
    let mut k: usize = 0;
    while k < n
        invariant
            n == w@.len(),
            i + n <= s.len(),
            k <= n,
            s@.subrange(i as int, i + k) == w@.subrange(0, k as int),
        decreases n - k,
    {
        if s[i + k] != w.get_char(k) {
            assert(s@.subrange(i as int, i + n)[k as int] != w@[k as int]);
            return false;
        }
        assert(s@.subrange(i as int, i + k + 1) =~= s@.subrange(i as int, i + k).push(s@[i + k]));
        assert(w@.subrange(0, k + 1) =~= w@.subrange(0, k as int).push(w@[k as int]));
        k = k + 1;
    }
    assert(w@.subrange(0, n as int) =~= w@);
    true
}

/// Matches the token `w` at `pos` and the whitespace after it.
fn token(s: &Vec<char>, st: &mut ParseState, pos: usize, w: &str) -> (r: Option<usize>)
    requires
        pos <= s@.len(),
        old(st).far <= s@.len(),
    ensures
        final(st).far <= s@.len(),
        match r {
            Some(p) => has_word(s@, pos as int, w@) && p == skip_spec(s@, pos + w@.len()) && pos < p <= s@.len(),
            None => w@.len() == 0 || !has_word(s@, pos as int, w@),
        },
{
    let len = s.len();
    let n = w.unicode_len();
    if n > 0 && pos <= len && word_at(s, pos, w) {
        let p = skip(s, pos + n);
        Some(p)
    } else {
        st.fail(pos, Expected::Token);
        None
    }
}

/// `x` is one of the keywords `for`, `if` and `else`.
pub open spec fn is_keyword(x: Seq<char>) -> bool {
    x == seq!['f', 'o', 'r'] || x == seq!['i', 'f'] || x == seq!['e', 'l', 's', 'e']
}

/// Parses an identifier and the whitespace after it.
fn parse_ident(input: &str, s: &Vec<char>, st: &mut ParseState, pos: usize) -> (r: Option<(String, usize)>)
    requires
        input@ == s@,
        pos <= s@.len(),
        old(st).far <= s@.len(),
    ensures
        final(st).far <= s@.len(),
        match r {
            Some((name, p)) => {
                &&& pos < p <= s@.len()
                &&& name@.len() > 0
                &&& is_id_start(name@[0])
                &&& forall|k: int| 0 <= k < name@.len() ==> #[trigger] is_id_char(name@[k])
                &&& name@ == s@.subrange(pos as int, pos + name@.len())
                &&& is_ident(name@)
                &&& (pos + name@.len() == s@.len() || !is_id_char(s@[pos + name@.len()]))
                &&& p == skip_spec(s@, pos + name@.len())
            },
            None => true,
        },
{
    proof {
        reveal_strlit("for");
        reveal_strlit("if");
        reveal_strlit("else");
    }
    assert("for"@ =~= seq!['f', 'o', 'r']);
    assert("if"@ =~= seq!['i', 'f']);
    assert("else"@ =~= seq!['e', 'l', 's', 'e']);
    if !(pos < s.len() && (('A' <= s[pos] && s[pos] <= 'Z') || ('a' <= s[pos] && s[pos] <= 'z') || s[pos] == '_')) {
        st.fail(pos, Expected::Identifier);
        return None;
    }
    let mut e = pos + 1;
    while e < s.len() && (('A' <= s[e] && s[e] <= 'Z') || ('a' <= s[e] && s[e] <= 'z') || s[e] == '_'
        || ('0' <= s[e] && s[e] <= '9'))
        invariant
            pos < e <= s@.len(),
            is_id_start(s@[pos as int]),
            forall|k: int| pos <= k < e ==> #[trigger] is_id_char(s@[k]),
        decreases s@.len() - e,
    {
        e = e + 1;
    }
    // A keyword is not an identifier.
    if (e - pos == 3 && word_at(s, pos, "for")) || (e - pos == 2 && word_at(s, pos, "if"))
        || (e - pos == 4 && word_at(s, pos, "else")) {
        st.fail(pos, Expected::Identifier);
        return None;
    }
    let name = input.substring_char(pos, e).to_owned();
    assert(name@ == s@.subrange(pos as int, e as int));
    proof {
        let x = name@;
        if is_keyword(x) {
            assert(has_word(s@, pos as int, x));
        }
    }
    let p = skip(s, e);
    Some((name, p))
}

/// Parses a run of decimal digits and the whitespace after it; fails where
/// the value does not fit in an `i64`.
fn parse_num(s: &Vec<char>, st: &mut ParseState, pos: usize) -> (r: Option<(i64, usize)>)
    requires
        pos <= s@.len(),
        old(st).far <= s@.len(),
    ensures
        final(st).far <= s@.len(),
        match r {
            Some((v, p)) => pos < p <= s@.len() && v >= 0 && exists|e: int| pos < e <= p
                && (forall|k: int| pos <= k < e ==> #[trigger] is_digit(s@[k]))
                && (e == s@.len() || !is_digit(s@[e]))
                && v as int == decimal_value(s@.subrange(pos as int, e))
                && p == skip_spec(s@, e),
            None => true,
        },
{
    let mut e = pos;
    let mut v: i64 = 0;
    while e < s.len() && '0' <= s[e] && s[e] <= '9'
        invariant
            pos <= e <= s@.len(),
            forall|k: int| pos <= k < e ==> #[trigger] is_digit(s@[k]),
            v >= 0,
            v as int == decimal_value(s@.subrange(pos as int, e as int)),
            old(st).far <= s@.len(),
            st.far <= s@.len(),
        decreases s@.len() - e,
    {
        let d = (s[e] as u32 - '0' as u32) as i64;
        if v > (i64::MAX - d) / 10 {
            st.fail(pos, Expected::Integer);
            return None;
        }
        assert(s@.subrange(pos as int, e + 1).drop_last() =~= s@.subrange(pos as int, e as int));
        v = v * 10 + d;
        e = e + 1;
    }
    if e == pos {
        st.fail(pos, Expected::Integer);
        return None;
    }
    let p = skip(s, e);
    Some((v, p))
}

/// Parses a string literal (any characters but `"` between two `"`) and the
/// whitespace after it. Its bytes are the UTF-8 encoding of those
/// characters followed by a NUL byte.
fn parse_text(input: &str, s: &Vec<char>, st: &mut ParseState, pos: usize) -> (r: Option<(Vec<u8>, usize)>)
    requires
        input@ == s@,
        pos <= s@.len(),
        old(st).far <= s@.len(),
    ensures
        final(st).far <= s@.len(),
        match r {
            Some((b, p)) => pos < p <= s@.len() && exists|e: int| pos < e < s@.len()
                && s@[pos as int] == '"' && s@[e] == '"'
                && (forall|k: int| pos < k < e ==> s@[k] != '"')
                && b@ == vstd::utf8::encode_utf8(s@.subrange(pos + 1, e)).push(0u8)
                && p == skip_spec(s@, e + 1),
            None => true,
        },
{
    let len = s.len();
    if pos >= len || !at(s, pos, '"') {
        st.fail(pos, Expected::StringLiteral);
        return None;
    }
    let mut e = pos + 1;
    while e < s.len() && s[e] != '"'
        invariant
            pos < e <= s@.len(),
            forall|k: int| pos < k < e ==> s@[k] != '"',
        decreases s@.len() - e,
    {
        e = e + 1;
    }
    if e == s.len() {
        st.fail(e, Expected::StringLiteral);
        return None;
    }
    let mut b = input.substring_char(pos + 1, e).as_bytes_vec();
    b.push(0u8);
    let p = skip(s, e + 1);
    Some((b, p))
}

/// `x` is an identifier: a letter or `_`, then letters, digits and `_`;
/// it is not a keyword.
pub open spec fn is_ident(x: Seq<char>) -> bool {
    &&& x.len() > 0
    &&& is_id_start(x[0])
    &&& forall|k: int| 0 <= k < x.len() ==> #[trigger] is_id_char(x[k])
    &&& !is_keyword(x)
}

/// `n` is an expression as the grammar builds it.
pub open spec fn expr_ok(n: AstNode) -> bool
    decreases n,
{
    match n {
        AstNode::Literal(AstValue::Int(v)) => v >= 0,
        AstNode::Literal(AstValue::Text(b)) => b@.len() > 0 && b@.last() == 0,
        AstNode::Identifier(x) => is_ident(x@),
        AstNode::Call(name, args) =>
            (is_binop(name@) && args@.len() == 2 && expr_ok(args@[0]) && expr_ok(args@[1]))
                || (is_ident(name@) && exprs_ok(args@)),
        _ => false,
    }
}

/// Every node of `ns` is an expression as the grammar builds it.
pub open spec fn exprs_ok(ns: Seq<AstNode>) -> bool
    decreases ns,
{
    if ns.len() == 0 {
        true
    } else {
        exprs_ok(ns.subrange(0, ns.len() - 1)) && expr_ok(ns[ns.len() - 1])
    }
}

/// `n` is a statement as the grammar builds it.
pub open spec fn stmt_ok(n: AstNode) -> bool
    decreases n,
{
    match n {
        AstNode::For { ident, first, last, body } =>
            is_ident(ident@) && first >= 0 && last >= 0 && stmts_ok(body@),
        AstNode::If { cond_expr, true_expr, false_expr } =>
            expr_ok(*cond_expr) && stmts_ok(true_expr@) && stmts_ok(false_expr@),
        AstNode::Assign(name, rhs) => is_ident(name@) && expr_ok(*rhs),
        _ => expr_ok(n),
    }
}

/// Every node of `ns` is a statement as the grammar builds it.
pub open spec fn stmts_ok(ns: Seq<AstNode>) -> bool
    decreases ns,
{
    if ns.len() == 0 {
        true
    } else {
        stmts_ok(ns.subrange(0, ns.len() - 1)) && stmt_ok(ns[ns.len() - 1])
    }
}

/// Builds the call node of a binary operator.
fn binop(op: &str, l: AstNode, r: AstNode) -> (n: AstNode)
    ensures
        n matches AstNode::Call(name, args) && name@ == op@ && args@ == seq![l, r],
{
    let mut args: Vec<AstNode> = Vec::new();
    args.push(l);
    args.push(r);
    assert(args@ =~= seq![l, r]);
    AstNode::Call(String::from_str(op), args)
}

/// Parses a term: a call, an identifier, a literal or an expression in
/// parentheses.
fn parse_term(input: &str, s: &Vec<char>, st: &mut ParseState, pos: usize) -> (r: Option<(AstNode, usize)>)
    requires
        input@ == s@,
        pos <= s@.len(),
        old(st).far <= s@.len(),
    ensures
        final(st).far <= s@.len(),
        r matches Some((n, p)) ==> pos < p <= s@.len() && expr_ok(n),
    decreases s@.len() - pos, 1nat,
{
    if let Some((name, p)) = parse_ident(input, s, st, pos) {
        if let Some(pa) = token(s, st, p, "(") {
            // A call: the arguments are expressions separated by commas.
            let mut args: Vec<AstNode> = Vec::new();
            let mut q = pa;
            assert(exprs_ok(args@));
            if let Some((a, q1)) = parse_expr(input, s, st, q) {
                args.push(a);
                assert(args@.subrange(0, args@.len() - 1) =~= Seq::<AstNode>::empty());
                q = q1;
                loop
                    invariant
                        input@ == s@,
                        pos < q <= s@.len(),
                        st.far <= s@.len(),
                        exprs_ok(args@),
                    decreases s@.len() - q,
                {
                    match token(s, st, q, ",") {
                        Some(q2) => match parse_expr(input, s, st, q2) {
                            Some((a, q3)) => {
                                let ghost before = args@;
                                args.push(a);
                                assert(args@.subrange(0, args@.len() - 1) =~= before);
                                q = q3;
                            },
                            None => break,
                        },
                        None => break,
                    }
                }
            }
            let q4 = token(s, st, q, ")")?;
            return Some((AstNode::Call(name, args), q4));
        }
        return Some((AstNode::Identifier(name), p));
    }
    if let Some((v, p)) = parse_num(s, st, pos) {
        return Some((AstNode::Literal(AstValue::Int(v)), p));
    }
    if let Some((b, p)) = parse_text(input, s, st, pos) {
        return Some((AstNode::Literal(AstValue::Text(b)), p));
    }
    let pa = token(s, st, pos, "(")?;
    let (e, pb) = parse_expr(input, s, st, pa)?;
    let pc = token(s, st, pb, ")")?;
    Some((e, pc))
}

/// Parses the terms joined by `%`, left to right.
fn parse_rem(input: &str, s: &Vec<char>, st: &mut ParseState, pos: usize) -> (r: Option<(AstNode, usize)>)
    requires
        input@ == s@,
        pos <= s@.len(),
        old(st).far <= s@.len(),
    ensures
        final(st).far <= s@.len(),
        r matches Some((n, p)) ==> pos < p <= s@.len() && expr_ok(n),
    decreases s@.len() - pos, 2nat,
{
    let (mut l, mut p) = parse_term(input, s, st, pos)?;
    loop
        invariant
            input@ == s@,
            pos < p <= s@.len(),
            st.far <= s@.len(),
            expr_ok(l),
        decreases s@.len() - p,
    {
        match token(s, st, p, "%") {
            Some(pa) => match parse_term(input, s, st, pa) {
                Some((rhs, pb)) => {
                    l = binop("%", l, rhs);
                    p = pb;
                },
                None => break,
            },
            None => break,
        }
    }
    Some((l, p))
}

/// Parses the operands joined by `==`, left to right.
fn parse_eq(input: &str, s: &Vec<char>, st: &mut ParseState, pos: usize) -> (r: Option<(AstNode, usize)>)
    requires
        input@ == s@,
        pos <= s@.len(),
        old(st).far <= s@.len(),
    ensures
        final(st).far <= s@.len(),
        r matches Some((n, p)) ==> pos < p <= s@.len() && expr_ok(n),
    decreases s@.len() - pos, 3nat,
{
    let (mut l, mut p) = parse_rem(input, s, st, pos)?;
    loop
        invariant
            input@ == s@,
            pos < p <= s@.len(),
            st.far <= s@.len(),
            expr_ok(l),
        decreases s@.len() - p,
    {
        match token(s, st, p, "==") {
            Some(pa) => match parse_rem(input, s, st, pa) {
                Some((rhs, pb)) => {
                    l = binop("==", l, rhs);
                    p = pb;
                },
                None => break,
            },
            None => break,
        }
    }
    Some((l, p))
}

/// Parses an expression: the operands joined by `&&`, left to right; `&&`
/// binds loosest, `%` tightest.
fn parse_expr(input: &str, s: &Vec<char>, st: &mut ParseState, pos: usize) -> (r: Option<(AstNode, usize)>)
    requires
        input@ == s@,
        pos <= s@.len(),
        old(st).far <= s@.len(),
    ensures
        final(st).far <= s@.len(),
        r matches Some((n, p)) ==> pos < p <= s@.len() && expr_ok(n),
    decreases s@.len() - pos, 4nat,
{
    let (mut l, mut p) = parse_eq(input, s, st, pos)?;
    loop
        invariant
            input@ == s@,
            pos < p <= s@.len(),
            st.far <= s@.len(),
            expr_ok(l),
        decreases s@.len() - p,
    {
        match token(s, st, p, "&&") {
            Some(pa) => match parse_eq(input, s, st, pa) {
                Some((rhs, pb)) => {
                    l = binop("&&", l, rhs);
                    p = pb;
                },
                None => break,
            },
            None => break,
        }
    }
    Some((l, p))
}

/// Parses `for (ident; first, last) { stmts }`.
fn parse_for(input: &str, s: &Vec<char>, st: &mut ParseState, pos: usize) -> (r: Option<(AstNode, usize)>)
    requires
        input@ == s@,
        pos <= s@.len(),
        old(st).far <= s@.len(),
    ensures
        final(st).far <= s@.len(),
        r matches Some((n, p)) ==> pos < p <= s@.len() && stmt_ok(n),
    decreases s@.len() - pos, 5nat,
{
    let p = token(s, st, pos, "for")?;
    let p = token(s, st, p, "(")?;
    let (ident, p) = parse_ident(input, s, st, p)?;
    let p = token(s, st, p, ";")?;
    let (first, p) = parse_num(s, st, p)?;
    let p = token(s, st, p, ",")?;
    let (last, p) = parse_num(s, st, p)?;
    let p = token(s, st, p, ")")?;
    let p = token(s, st, p, "{")?;
    let (body, p) = parse_stmt_list(input, s, st, p);
    let p = token(s, st, p, "}")?;
    Some((AstNode::For { ident, first, last, body }, p))
}

/// Parses `if (cond) { stmts } else { stmts }`.
fn parse_if(input: &str, s: &Vec<char>, st: &mut ParseState, pos: usize) -> (r: Option<(AstNode, usize)>)
    requires
        input@ == s@,
        pos <= s@.len(),
        old(st).far <= s@.len(),
    ensures
        final(st).far <= s@.len(),
        r matches Some((n, p)) ==> pos < p <= s@.len() && stmt_ok(n),
    decreases s@.len() - pos, 5nat,
{
    let p = token(s, st, pos, "if")?;
    let p = token(s, st, p, "(")?;
    let (cond, p) = parse_expr(input, s, st, p)?;
    let p = token(s, st, p, ")")?;
    let p = token(s, st, p, "{")?;
    let (true_expr, p) = parse_stmt_list(input, s, st, p);
    let p = token(s, st, p, "}")?;
    let p = token(s, st, p, "else")?;
    let p = token(s, st, p, "{")?;
    let (false_expr, p) = parse_stmt_list(input, s, st, p);
    let p = token(s, st, p, "}")?;
    Some((AstNode::If { cond_expr: Box::new(cond), true_expr, false_expr }, p))
}

/// Parses `ident = expr;`.
fn parse_assign(input: &str, s: &Vec<char>, st: &mut ParseState, pos: usize) -> (r: Option<(AstNode, usize)>)
    requires
        input@ == s@,
        pos <= s@.len(),
        old(st).far <= s@.len(),
    ensures
        final(st).far <= s@.len(),
        r matches Some((n, p)) ==> pos < p <= s@.len() && stmt_ok(n),
    decreases s@.len() - pos, 5nat,
{
    let (name, p) = parse_ident(input, s, st, pos)?;
    let p = token(s, st, p, "=")?;
    let (rhs, p) = parse_expr(input, s, st, p)?;
    let p = token(s, st, p, ";")?;
    Some((AstNode::Assign(name, Box::new(rhs)), p))
}

/// Parses one statement: a loop, a conditional, an assignment, or an
/// expression followed by `;`, tried in that order.
fn parse_stmt(input: &str, s: &Vec<char>, st: &mut ParseState, pos: usize) -> (r: Option<(AstNode, usize)>)
    requires
        input@ == s@,
        pos <= s@.len(),
        old(st).far <= s@.len(),
    ensures
        final(st).far <= s@.len(),
        r matches Some((n, p)) ==> pos < p <= s@.len() && stmt_ok(n),
    decreases s@.len() - pos, 6nat,
{
    if let Some(r) = parse_for(input, s, st, pos) {
        return Some(r);
    }
    if let Some(r) = parse_if(input, s, st, pos) {
        return Some(r);
    }
    if let Some(r) = parse_assign(input, s, st, pos) {
        return Some(r);
    }
    let (e, p) = parse_expr(input, s, st, pos)?;
    let p = token(s, st, p, ";")?;
    Some((e, p))
}

/// Parses as many statements as follow each other from `pos`.
fn parse_stmt_list(input: &str, s: &Vec<char>, st: &mut ParseState, pos: usize) -> (r: (Vec<AstNode>, usize))
    requires
        input@ == s@,
        pos <= s@.len(),
        old(st).far <= s@.len(),
    ensures
        final(st).far <= s@.len(),
        pos <= r.1 <= s@.len(),
        stmts_ok(r.0@),
    decreases s@.len() - pos, 7nat,
{
    let mut stmts: Vec<AstNode> = Vec::new();
    assert(stmts_ok(stmts@));
    let mut p = pos;
    loop
        invariant
            input@ == s@,
            pos <= p <= s@.len(),
            st.far <= s@.len(),
            stmts_ok(stmts@),
        decreases s@.len() - p,
    {
        match parse_stmt(input, s, st, p) {
            Some((n, pa)) => {
                let ghost before = stmts@;
                stmts.push(n);
                assert(stmts@.subrange(0, stmts@.len() - 1) =~= before);
                p = pa;
            },
            None => break,
        }
    }
    (stmts, p)
}

/// Parses a whole program: leading whitespace and comments, exactly one
/// statement, then the end of the text.
pub fn parse_string(input: &str) -> (r: Result<AstNode, ParseError>)
    ensures
        r matches Ok(n) ==> stmt_ok(n),
        r matches Err(e) ==> e.offset <= input@.len(),
{
    let s = chars_of(input);
    let mut st = ParseState { far: 0, expected: Expected::Token };
    let p = skip(&s, 0);
    match parse_stmt(input, &s, &mut st, p) {
        Some((n, pa)) => {
            if pa == s.len() {
                Ok(n)
            } else {
                st.fail(pa, Expected::EndOfInput);
                Err(ParseError { offset: st.far, expected: st.expected })
            }
        },
        None => Err(ParseError { offset: st.far, expected: st.expected }),
    }
}

} // verus!
