//! The rule compiler: turns rule-language source into a compiled-rules
//! artifact. Conditions are parsed into an expression tree and compiled to
//! condition programs; the generated code provably evaluates to the
//! expression's value and never traps.

use vstd::prelude::*;
use crate::bytes::{bytes_eq, copy_bytes, utf8_lossy};
use crate::rules::{CompiledRule, CompiledRules, CompiledRulesV, CompiledRuleV, MetaValue,
    MetaValueV, Pattern, PatternV};
use crate::vm::{CmpOp, Instr, bool_val, cmp_eval, eval_prog, run, total_prog, lemma_run_append,
    lemma_run_push, lemma_run_binop, lemma_run_not};
use vstd::utf8::encode_utf8;

verus! {

/// Rule source that does not parse.
#[derive(Debug, Clone, Copy)]
pub struct SyntaxError {
    /// What was wrong.
    pub message: &'static str,
}

/// An integer-valued operand of a comparison.
#[derive(Debug, Clone, Copy, PartialEq, Eq, Structural)]
pub enum Term {
    /// The size of the scanned data.
    Filesize,
    /// An integer literal.
    Int(i64),
}

/// A parsed condition expression.
#[derive(Debug, PartialEq, Eq)]
pub enum Expr {
    /// The constant true.
    True,
    /// The constant false.
    False,
    /// Whether the rule's pattern with this index matched.
    Pat(u32),
    /// A comparison of two integer terms.
    Cmp(CmpOp, Term, Term),
    /// Logical negation.
    Not(Box<Expr>),
    /// Logical conjunction.
    And(Box<Expr>, Box<Expr>),
    /// Logical disjunction.
    Or(Box<Expr>, Box<Expr>),
}

/// The value of an integer term under a given filesize.
pub open spec fn eval_term(t: Term, fsize: i64) -> i64 {
    match t {
        Term::Filesize => fsize,
        Term::Int(v) => v,
    }
}

/// Every pattern reference points at one of the rule's `npat` patterns.
pub open spec fn expr_wf(e: Expr, npat: int) -> bool
    decreases e,
{
    match e {
        Expr::True => true,
        Expr::False => true,
        Expr::Pat(k) => (k as int) < npat,
        Expr::Cmp(op, t1, t2) => true,
        Expr::Not(e1) => expr_wf(*e1, npat),
        Expr::And(a, b) => expr_wf(*a, npat) && expr_wf(*b, npat),
        Expr::Or(a, b) => expr_wf(*a, npat) && expr_wf(*b, npat),
    }
}

/// What a condition expression means: its boolean value under a filesize
/// and the rule's pattern-match flags.
pub open spec fn eval_expr(e: Expr, fsize: i64, found: Seq<bool>) -> bool
    decreases e,
{
    match e {
        Expr::True => true,
        Expr::False => false,
        Expr::Pat(k) => (k as int) < found.len() && found[k as int],
        Expr::Cmp(op, t1, t2) => cmp_eval(op, eval_term(t1, fsize), eval_term(t2, fsize)),
        Expr::Not(e1) => !eval_expr(*e1, fsize, found),
        Expr::And(a, b) => eval_expr(*a, fsize, found) && eval_expr(*b, fsize, found),
        Expr::Or(a, b) => eval_expr(*a, fsize, found) || eval_expr(*b, fsize, found),
    }
}

/// The instruction that pushes a term's value.
pub open spec fn spec_term_instr(t: Term) -> Instr {
    match t {
        Term::Filesize => Instr::PushFilesize,
        Term::Int(v) => Instr::PushInt(v),
    }
}

/// The code generated for a condition expression: postfix order, one
/// instruction per operator.
pub open spec fn spec_gen(e: Expr) -> Seq<Instr>
    decreases e,
{
    match e {
        Expr::True => seq![Instr::PushInt(1i64)],
        Expr::False => seq![Instr::PushInt(0i64)],
        Expr::Pat(k) => seq![Instr::PushPattern(k)],
        Expr::Cmp(op, t1, t2) => seq![spec_term_instr(t1), spec_term_instr(t2), Instr::Cmp(op)],
        Expr::Not(e1) => spec_gen(*e1) + seq![Instr::Not],
        Expr::And(a, b) => spec_gen(*a) + spec_gen(*b) + seq![Instr::And],
        Expr::Or(a, b) => spec_gen(*a) + spec_gen(*b) + seq![Instr::Or],
    }
}

/// The instruction that pushes a term's value.
fn term_instr(t: &Term) -> (r: Instr)
    ensures
        r == match *t {
            Term::Filesize => Instr::PushFilesize,
            Term::Int(v) => Instr::PushInt(v),
        },
{
    match t {
        Term::Filesize => Instr::PushFilesize,
        Term::Int(v) => Instr::PushInt(*v),
    }
}

/// Appends code for `e` to `out`.
///
/// The appended instructions, run on any stack under any filesize and any
/// pattern flags that cover the expression's references, leave exactly the
/// expression's value on top of the stack.
pub fn gen_expr(e: &Expr, out: &mut Vec<Instr>)
    ensures
        final(out)@.len() > old(out)@.len(),
        final(out)@.subrange(0, old(out)@.len() as int) == old(out)@,
        final(out)@.skip(old(out)@.len() as int) == spec_gen(*e),
        forall|fsize: i64, found: Seq<bool>, stack: Seq<i64>|
            expr_wf(*e, found.len() as int) ==> run(
                #[trigger] final(out)@.skip(old(out)@.len() as int),
                fsize,
                found,
                stack,
            ) == Some(stack.push(bool_val(eval_expr(*e, fsize, found)))),
    decreases *e,
{
    let ghost base = out@;
    match e {
        Expr::True => {
            out.push(Instr::PushInt(1));
            proof {
                let p = out@.skip(base.len() as int);
                assert(p =~= seq![Instr::PushInt(1i64)]);
                assert forall|fsize: i64, found: Seq<bool>, stack: Seq<i64>|
                    expr_wf(*e, found.len() as int) implies run(p, fsize, found, stack) == Some(
                    stack.push(bool_val(eval_expr(*e, fsize, found))),
                ) by {
                    lemma_run_push(Instr::PushInt(1), fsize, found, stack);
                }
            }
        },
        Expr::False => {
            out.push(Instr::PushInt(0));
            proof {
                let p = out@.skip(base.len() as int);
                assert(p =~= seq![Instr::PushInt(0i64)]);
                assert forall|fsize: i64, found: Seq<bool>, stack: Seq<i64>|
                    expr_wf(*e, found.len() as int) implies run(p, fsize, found, stack) == Some(
                    stack.push(bool_val(eval_expr(*e, fsize, found))),
                ) by {
                    lemma_run_push(Instr::PushInt(0), fsize, found, stack);
                }
            }
        },
        Expr::Pat(k) => {
            out.push(Instr::PushPattern(*k));
            proof {
                let p = out@.skip(base.len() as int);
                assert(p =~= seq![Instr::PushPattern(*k)]);
                assert forall|fsize: i64, found: Seq<bool>, stack: Seq<i64>|
                    expr_wf(*e, found.len() as int) implies run(p, fsize, found, stack) == Some(
                    stack.push(bool_val(eval_expr(*e, fsize, found))),
                ) by {
                    lemma_run_push(Instr::PushPattern(*k), fsize, found, stack);
                }
            }
        },
        Expr::Cmp(op, t1, t2) => {
            let i1 = term_instr(t1);
            let i2 = term_instr(t2);
            out.push(i1);
            out.push(i2);
            out.push(Instr::Cmp(*op));
            proof {
                let p = out@.skip(base.len() as int);
                assert(p =~= seq![i1] + seq![i2] + seq![Instr::Cmp(*op)]);
                assert forall|fsize: i64, found: Seq<bool>, stack: Seq<i64>|
                    expr_wf(*e, found.len() as int) implies run(p, fsize, found, stack) == Some(
                    stack.push(bool_val(eval_expr(*e, fsize, found))),
                ) by {
                    let v1 = eval_term(*t1, fsize);
                    let v2 = eval_term(*t2, fsize);
                    lemma_run_append(seq![i1] + seq![i2], seq![Instr::Cmp(*op)], fsize, found, stack);
                    lemma_run_append(seq![i1], seq![i2], fsize, found, stack);
                    lemma_run_push(i1, fsize, found, stack);
                    lemma_run_push(i2, fsize, found, stack.push(v1));
                    lemma_run_binop(Instr::Cmp(*op), fsize, found, stack, v1, v2);
                }
            }
        },
        Expr::Not(e1) => {
            gen_expr(e1, out);
            let ghost p1 = out@.skip(base.len() as int);
            out.push(Instr::Not);
            proof {
                let p = out@.skip(base.len() as int);
                assert(p =~= p1 + seq![Instr::Not]);
                assert forall|fsize: i64, found: Seq<bool>, stack: Seq<i64>|
                    expr_wf(*e, found.len() as int) implies run(p, fsize, found, stack) == Some(
                    stack.push(bool_val(eval_expr(*e, fsize, found))),
                ) by {
                    let v1 = bool_val(eval_expr(**e1, fsize, found));
                    assert(run(p1, fsize, found, stack) == Some(stack.push(v1)));
                    lemma_run_append(p1, seq![Instr::Not], fsize, found, stack);
                    lemma_run_not(fsize, found, stack, v1);
                }
            }
        },
        Expr::And(a, b) => {
            gen_expr(a, out);
            let ghost mid = out@;
            let ghost pa = out@.skip(base.len() as int);
            gen_expr(b, out);
            let ghost pb = out@.skip(mid.len() as int);
            out.push(Instr::And);
            proof {
                let p = out@.skip(base.len() as int);
                assert(p =~= pa + pb + seq![Instr::And]);
                assert forall|fsize: i64, found: Seq<bool>, stack: Seq<i64>|
                    expr_wf(*e, found.len() as int) implies run(p, fsize, found, stack) == Some(
                    stack.push(bool_val(eval_expr(*e, fsize, found))),
                ) by {
                    let va = bool_val(eval_expr(**a, fsize, found));
                    let vb = bool_val(eval_expr(**b, fsize, found));
                    assert(run(pa, fsize, found, stack) == Some(stack.push(va)));
                    assert(run(pb, fsize, found, stack.push(va)) == Some(stack.push(va).push(vb)));
                    lemma_run_append(pa + pb, seq![Instr::And], fsize, found, stack);
                    lemma_run_append(pa, pb, fsize, found, stack);
                    lemma_run_binop(Instr::And, fsize, found, stack, va, vb);
                }
            }
        },
        Expr::Or(a, b) => {
            gen_expr(a, out);
            let ghost mid = out@;
            let ghost pa = out@.skip(base.len() as int);
            gen_expr(b, out);
            let ghost pb = out@.skip(mid.len() as int);
            out.push(Instr::Or);
            proof {
                let p = out@.skip(base.len() as int);
                assert(p =~= pa + pb + seq![Instr::Or]);
                assert forall|fsize: i64, found: Seq<bool>, stack: Seq<i64>|
                    expr_wf(*e, found.len() as int) implies run(p, fsize, found, stack) == Some(
                    stack.push(bool_val(eval_expr(*e, fsize, found))),
                ) by {
                    let va = bool_val(eval_expr(**a, fsize, found));
                    let vb = bool_val(eval_expr(**b, fsize, found));
                    assert(run(pa, fsize, found, stack) == Some(stack.push(va)));
                    assert(run(pb, fsize, found, stack.push(va)) == Some(stack.push(va).push(vb)));
                    lemma_run_append(pa + pb, seq![Instr::Or], fsize, found, stack);
                    lemma_run_append(pa, pb, fsize, found, stack);
                    lemma_run_binop(Instr::Or, fsize, found, stack, va, vb);
                }
            }
        },
    }
}

/// Compiles a whole condition: the resulting program always finishes with
/// exactly the condition's value, whatever the filesize and the flags of
/// the rule's `npat` patterns.
pub fn gen_condition(e: &Expr, npat: usize) -> (r: Vec<Instr>)
    requires
        expr_wf(*e, npat as int),
    ensures
        r@ == spec_gen(*e),
        total_prog(r@, npat as int),
        forall|fsize: i64, found: Seq<bool>|
            found.len() == npat ==> #[trigger] eval_prog(r@, fsize, found) == Some(
                eval_expr(*e, fsize, found),
            ),
{
    let mut prog: Vec<Instr> = Vec::new();
    gen_expr(e, &mut prog);
    proof {
        assert(prog@.skip(0) =~= prog@);
        assert forall|fsize: i64, found: Seq<bool>| found.len() == npat implies #[trigger] eval_prog(
            prog@,
            fsize,
            found,
        ) == Some(eval_expr(*e, fsize, found)) by {
            assert(run(prog@, fsize, found, Seq::empty()) == Some(
                Seq::empty().push(bool_val(eval_expr(*e, fsize, found))),
            ));
            let st = Seq::empty().push(bool_val(eval_expr(*e, fsize, found)));
            assert(st.len() == 1);
            assert(st[0] == bool_val(eval_expr(*e, fsize, found)));
        }
    }
    prog
}

/// One lexical token of the rule language.
#[derive(Debug, PartialEq, Eq)]
pub enum Token {
    LBrace,
    RBrace,
    LParen,
    RParen,
    Colon,
    Assign,
    CmpTok(CmpOp),
    Ident(Vec<u8>),
    Dollar(Vec<u8>),
    IntLit(i64),
    StrLit(Vec<u8>),
}

/// The value of a lexical token.
pub ghost enum TokenV {
    LBrace,
    RBrace,
    LParen,
    RParen,
    Colon,
    Assign,
    CmpTok(CmpOp),
    Ident(Seq<u8>),
    Dollar(Seq<u8>),
    IntLit(i64),
    StrLit(Seq<u8>),
}

impl View for Token {
    type V = TokenV;

    open spec fn view(&self) -> TokenV {
        match self {
            Token::LBrace => TokenV::LBrace,
            Token::RBrace => TokenV::RBrace,
            Token::LParen => TokenV::LParen,
            Token::RParen => TokenV::RParen,
            Token::Colon => TokenV::Colon,
            Token::Assign => TokenV::Assign,
            Token::CmpTok(op) => TokenV::CmpTok(*op),
            Token::Ident(v) => TokenV::Ident(v@),
            Token::Dollar(v) => TokenV::Dollar(v@),
            Token::IntLit(v) => TokenV::IntLit(*v),
            Token::StrLit(v) => TokenV::StrLit(v@),
        }
    }
}

/// Whitespace between tokens.
pub open spec fn spec_is_ws(b: u8) -> bool {
    b == 0x20 || b == 0x09 || b == 0x0d || b == 0x0a
}

/// A byte that can start an identifier.
pub open spec fn spec_ident_start(b: u8) -> bool {
    0x41 <= b <= 0x5a || 0x61 <= b <= 0x7a || b == 0x5f
}

/// A byte that can continue an identifier.
pub open spec fn spec_ident_byte(b: u8) -> bool {
    spec_ident_start(b) || 0x30 <= b <= 0x39
}

/// A decimal digit.
pub open spec fn spec_digit(b: u8) -> bool {
    0x30 <= b <= 0x39
}

/// The bytes an identifier token consumes.
pub open spec fn ident_byte_f() -> spec_fn(u8) -> bool {
    |b: u8| spec_ident_byte(b)
}

/// The bytes a number token consumes.
pub open spec fn digit_f() -> spec_fn(u8) -> bool {
    |b: u8| spec_digit(b)
}

/// The bytes a string literal's body consumes: anything but the closing
/// quote.
pub open spec fn not_quote_f() -> spec_fn(u8) -> bool {
    |b: u8| b != 0x22
}

/// The first position at or past `i` whose byte fails `p`, or the end of
/// the buffer.
pub open spec fn spec_scan_end(src: Seq<u8>, i: int, p: spec_fn(u8) -> bool) -> int
    decreases src.len() - i,
{
    if i < 0 || i >= src.len() || !p(src[i]) {
        i
    } else {
        spec_scan_end(src, i + 1, p)
    }
}

/// `spec_scan_end` stays within the buffer; every byte before it passes
/// `p`, and the byte at it (if any) fails `p`.
pub proof fn lemma_scan_end_bounds(src: Seq<u8>, i: int, p: spec_fn(u8) -> bool)
    requires
        0 <= i <= src.len(),
    ensures
        i <= spec_scan_end(src, i, p) <= src.len(),
        forall|k: int| i <= k < spec_scan_end(src, i, p) ==> p(src[k]),
        spec_scan_end(src, i, p) < src.len() ==> !p(src[spec_scan_end(src, i, p)]),
    decreases src.len() - i,
{
    if i < src.len() && p(src[i]) {
        lemma_scan_end_bounds(src, i + 1, p);
    }
}

/// The value of the decimal digits in `src[i .. j]`, most significant
/// first.
pub open spec fn spec_digits_val(src: Seq<u8>, i: int, j: int) -> int
    decreases j - i,
{
    if j <= i {
        0
    } else {
        spec_digits_val(src, i, j - 1) * 10 + (src[j - 1] - 0x30)
    }
}

/// Over a digit run the value is non-negative and grows with the run.
pub proof fn lemma_digits_val_monotone(src: Seq<u8>, i: int, j1: int, j2: int)
    requires
        0 <= i <= j1 <= j2 <= src.len(),
        forall|k: int| i <= k < j2 ==> spec_digit(#[trigger] src[k]),
    ensures
        0 <= spec_digits_val(src, i, j1) <= spec_digits_val(src, i, j2),
    decreases j2 - j1,
{
    if j1 == j2 {
        lemma_digits_val_nonneg(src, i, j1);
    } else {
        lemma_digits_val_monotone(src, i, j1, j2 - 1);
        lemma_digits_val_nonneg(src, i, j2 - 1);
        assert(spec_digits_val(src, i, j2) == spec_digits_val(src, i, j2 - 1) * 10 + (src[j2
            - 1] - 0x30));
        assert(spec_digits_val(src, i, j2 - 1) * 10 >= spec_digits_val(src, i, j2 - 1))
            by (nonlinear_arith)
            requires
                spec_digits_val(src, i, j2 - 1) >= 0,
        ;
    }
}

/// The value of a digit run is non-negative.
pub proof fn lemma_digits_val_nonneg(src: Seq<u8>, i: int, j: int)
    requires
        0 <= i,
        forall|k: int| i <= k < j ==> spec_digit(#[trigger] src[k]),
    ensures
        spec_digits_val(src, i, j) >= 0,
    decreases j - i,
{
    if j > i {
        lemma_digits_val_nonneg(src, i, j - 1);
        assert(spec_digits_val(src, i, j - 1) * 10 >= 0) by (nonlinear_arith)
            requires
                spec_digits_val(src, i, j - 1) >= 0,
        ;
    }
}

/// Prepends a token to a tokenization's result.
pub open spec fn spec_cons_tok(t: TokenV, rest: Option<Seq<TokenV>>) -> Option<Seq<TokenV>> {
    match rest {
        Some(ts) => Some(seq![t] + ts),
        None => None,
    }
}

/// Tokenizes the source from position `i` on: the definition of the rule
/// language's lexical grammar.
pub open spec fn spec_tok_from(src: Seq<u8>, i: int) -> Option<Seq<TokenV>>
    decreases src.len() - i,
{
    if i < 0 || i >= src.len() {
        Some(Seq::empty())
    } else {
        let b = src[i];
        if spec_is_ws(b) {
            spec_tok_from(src, i + 1)
        } else if b == 0x7b {
            spec_cons_tok(TokenV::LBrace, spec_tok_from(src, i + 1))
        } else if b == 0x7d {
            spec_cons_tok(TokenV::RBrace, spec_tok_from(src, i + 1))
        } else if b == 0x28 {
            spec_cons_tok(TokenV::LParen, spec_tok_from(src, i + 1))
        } else if b == 0x29 {
            spec_cons_tok(TokenV::RParen, spec_tok_from(src, i + 1))
        } else if b == 0x3a {
            spec_cons_tok(TokenV::Colon, spec_tok_from(src, i + 1))
        } else if b == 0x3d {
            if i + 1 < src.len() && src[i + 1] == 0x3d {
                spec_cons_tok(TokenV::CmpTok(CmpOp::Eq), spec_tok_from(src, i + 2))
            } else {
                spec_cons_tok(TokenV::Assign, spec_tok_from(src, i + 1))
            }
        } else if b == 0x21 {
            if i + 1 < src.len() && src[i + 1] == 0x3d {
                spec_cons_tok(TokenV::CmpTok(CmpOp::Ne), spec_tok_from(src, i + 2))
            } else {
                None
            }
        } else if b == 0x3e {
            if i + 1 < src.len() && src[i + 1] == 0x3d {
                spec_cons_tok(TokenV::CmpTok(CmpOp::Ge), spec_tok_from(src, i + 2))
            } else {
                spec_cons_tok(TokenV::CmpTok(CmpOp::Gt), spec_tok_from(src, i + 1))
            }
        } else if b == 0x3c {
            if i + 1 < src.len() && src[i + 1] == 0x3d {
                spec_cons_tok(TokenV::CmpTok(CmpOp::Le), spec_tok_from(src, i + 2))
            } else {
                spec_cons_tok(TokenV::CmpTok(CmpOp::Lt), spec_tok_from(src, i + 1))
            }
        } else if b == 0x22 {
            let j = spec_scan_end(src, i + 1, not_quote_f());
            if !(i + 1 <= j <= src.len()) {
                None
            } else if j >= src.len() {
                None
            } else {
                spec_cons_tok(TokenV::StrLit(src.subrange(i + 1, j)), spec_tok_from(src, j + 1))
            }
        } else if b == 0x24 {
            if i + 1 >= src.len() || !spec_ident_start(src[i + 1]) {
                None
            } else {
                let j = spec_scan_end(src, i + 1, ident_byte_f());
                if !(i + 1 <= j <= src.len()) {
                    None
                } else {
                    spec_cons_tok(TokenV::Dollar(src.subrange(i + 1, j)), spec_tok_from(src, j))
                }
            }
        } else if spec_ident_start(b) {
            let j = spec_scan_end(src, i + 1, ident_byte_f());
            if !(i + 1 <= j <= src.len()) {
                None
            } else {
                spec_cons_tok(TokenV::Ident(src.subrange(i, j)), spec_tok_from(src, j))
            }
        } else if spec_digit(b) {
            let j = spec_scan_end(src, i, digit_f());
            if !(i + 1 <= j <= src.len()) {
                None
            } else {
                let v = spec_digits_val(src, i, j);
                if v > i64::MAX {
                    None
                } else {
                    spec_cons_tok(TokenV::IntLit(v as i64), spec_tok_from(src, j))
                }
            }
        } else {
            None
        }
    }
}

/// Tokenizes a whole source buffer.
pub open spec fn spec_tokenize(src: Seq<u8>) -> Option<Seq<TokenV>> {
    spec_tok_from(src, 0)
}

/// Whether a byte can start an identifier.
fn is_ident_start(b: u8) -> (r: bool)
    ensures
        r == (0x41 <= b <= 0x5a || 0x61 <= b <= 0x7a || b == 0x5f),
{
    (b >= 0x41u8 && b <= 0x5au8) || (b >= 0x61u8 && b <= 0x7au8) || b == 0x5fu8
}

/// Whether a byte can continue an identifier.
fn is_ident_byte(b: u8) -> (r: bool)
    ensures
        r == (0x41 <= b <= 0x5a || 0x61 <= b <= 0x7a || b == 0x5f || 0x30 <= b <= 0x39),
{
    is_ident_start(b) || (b >= 0x30u8 && b <= 0x39u8)
}

/// Splits rule source into tokens. Identifiers, numbers, quoted strings,
/// punctuation and the comparison operators are recognised; anything else
/// is an error.
fn tokenize(src: &[u8]) -> (r: Result<Vec<Token>, SyntaxError>)
    ensures
        r is Ok <==> spec_tokenize(src@) is Some,
        r is Ok ==> Some(r->Ok_0@.map(|k: int, t: Token| t@)) == spec_tokenize(src@),
{
    let mut toks: Vec<Token> = Vec::new();
    let n = src.len();
    let mut i: usize = 0;
    proof {
        assert(toks@.map(|k: int, t: Token| t@) =~= Seq::<TokenV>::empty());
    }
    while i < n
        invariant
            n == src@.len(),
            i <= n,
            spec_tokenize(src@) == match spec_tok_from(src@, i as int) {
                Some(rest) => Some(toks@.map(|k: int, t: Token| t@) + rest),
                None => None::<Seq<TokenV>>,
            },
        decreases n - i,
    {
        let ghost prevm = toks@.map(|k: int, t: Token| t@);
        let b = src[i];
        if b == 0x20u8 || b == 0x09u8 || b == 0x0du8 || b == 0x0au8 {
            i = i + 1;
        } else if b == 0x7bu8 {
            toks.push(Token::LBrace);
            proof {
                lemma_tok_push(prevm, toks@.map(|k: int, t: Token| t@), TokenV::LBrace);
            }
            i = i + 1;
        } else if b == 0x7du8 {
            toks.push(Token::RBrace);
            proof {
                lemma_tok_push(prevm, toks@.map(|k: int, t: Token| t@), TokenV::RBrace);
            }
            i = i + 1;
        } else if b == 0x28u8 {
            toks.push(Token::LParen);
            proof {
                lemma_tok_push(prevm, toks@.map(|k: int, t: Token| t@), TokenV::LParen);
            }
            i = i + 1;
        } else if b == 0x29u8 {
            toks.push(Token::RParen);
            proof {
                lemma_tok_push(prevm, toks@.map(|k: int, t: Token| t@), TokenV::RParen);
            }
            i = i + 1;
        } else if b == 0x3au8 {
            toks.push(Token::Colon);
            proof {
                lemma_tok_push(prevm, toks@.map(|k: int, t: Token| t@), TokenV::Colon);
            }
            i = i + 1;
        } else if b == 0x3du8 {
            if i + 1 < n && src[i + 1] == 0x3du8 {
                toks.push(Token::CmpTok(CmpOp::Eq));
                proof {
                    lemma_tok_push(
                        prevm,
                        toks@.map(|k: int, t: Token| t@),
                        TokenV::CmpTok(CmpOp::Eq),
                    );
                }
                i = i + 2;
            } else {
                toks.push(Token::Assign);
                proof {
                    lemma_tok_push(prevm, toks@.map(|k: int, t: Token| t@), TokenV::Assign);
                }
                i = i + 1;
            }
        } else if b == 0x21u8 {
            if i + 1 < n && src[i + 1] == 0x3du8 {
                toks.push(Token::CmpTok(CmpOp::Ne));
                proof {
                    lemma_tok_push(
                        prevm,
                        toks@.map(|k: int, t: Token| t@),
                        TokenV::CmpTok(CmpOp::Ne),
                    );
                }
                i = i + 2;
            } else {
                return Err(SyntaxError { message: "unexpected character" });
            }
        } else if b == 0x3eu8 {
            if i + 1 < n && src[i + 1] == 0x3du8 {
                toks.push(Token::CmpTok(CmpOp::Ge));
                proof {
                    lemma_tok_push(
                        prevm,
                        toks@.map(|k: int, t: Token| t@),
                        TokenV::CmpTok(CmpOp::Ge),
                    );
                }
                i = i + 2;
            } else {
                toks.push(Token::CmpTok(CmpOp::Gt));
                proof {
                    lemma_tok_push(
                        prevm,
                        toks@.map(|k: int, t: Token| t@),
                        TokenV::CmpTok(CmpOp::Gt),
                    );
                }
                i = i + 1;
            }
        } else if b == 0x3cu8 {
            if i + 1 < n && src[i + 1] == 0x3du8 {
                toks.push(Token::CmpTok(CmpOp::Le));
                proof {
                    lemma_tok_push(
                        prevm,
                        toks@.map(|k: int, t: Token| t@),
                        TokenV::CmpTok(CmpOp::Le),
                    );
                }
                i = i + 2;
            } else {
                toks.push(Token::CmpTok(CmpOp::Lt));
                proof {
                    lemma_tok_push(
                        prevm,
                        toks@.map(|k: int, t: Token| t@),
                        TokenV::CmpTok(CmpOp::Lt),
                    );
                }
                i = i + 1;
            }
        } else if b == 0x22u8 {
            let mut j = i + 1;
            while j < n && src[j] != 0x22u8
                invariant
                    n == src@.len(),
                    i + 1 <= j <= n,
                    spec_scan_end(src@, j as int, not_quote_f()) == spec_scan_end(
                        src@,
                        i as int + 1,
                        not_quote_f(),
                    ),
                decreases n - j,
            {
                j = j + 1;
            }
            proof {
                assert(spec_scan_end(src@, j as int, not_quote_f()) == j as int);
                lemma_scan_end_bounds(src@, i as int + 1, not_quote_f());
            }
            if j >= n {
                return Err(SyntaxError { message: "unterminated string literal" });
            }
            toks.push(Token::StrLit(copy_bytes(&src[i + 1..j])));
            proof {
                lemma_tok_push(
                    prevm,
                    toks@.map(|k: int, t: Token| t@),
                    TokenV::StrLit(src@.subrange(i as int + 1, j as int)),
                );
            }
            i = j + 1;
        } else if b == 0x24u8 {
            if i + 1 >= n || !is_ident_start(src[i + 1]) {
                return Err(SyntaxError { message: "bad pattern identifier" });
            }
            let mut j = i + 1;
            while j < n && is_ident_byte(src[j])
                invariant
                    n == src@.len(),
                    i + 1 <= j <= n,
                    spec_scan_end(src@, j as int, ident_byte_f()) == spec_scan_end(
                        src@,
                        i as int + 1,
                        ident_byte_f(),
                    ),
                decreases n - j,
            {
                j = j + 1;
            }
            proof {
                assert(spec_scan_end(src@, j as int, ident_byte_f()) == j as int);
                lemma_scan_end_bounds(src@, i as int + 1, ident_byte_f());
            }
            toks.push(Token::Dollar(copy_bytes(&src[i + 1..j])));
            proof {
                lemma_tok_push(
                    prevm,
                    toks@.map(|k: int, t: Token| t@),
                    TokenV::Dollar(src@.subrange(i as int + 1, j as int)),
                );
            }
            i = j;
        } else if is_ident_start(b) {
            let mut j = i + 1;
            while j < n && is_ident_byte(src[j])
                invariant
                    n == src@.len(),
                    i + 1 <= j <= n,
                    spec_scan_end(src@, j as int, ident_byte_f()) == spec_scan_end(
                        src@,
                        i as int + 1,
                        ident_byte_f(),
                    ),
                decreases n - j,
            {
                j = j + 1;
            }
            proof {
                assert(spec_scan_end(src@, j as int, ident_byte_f()) == j as int);
                lemma_scan_end_bounds(src@, i as int + 1, ident_byte_f());
            }
            toks.push(Token::Ident(copy_bytes(&src[i..j])));
            proof {
                lemma_tok_push(
                    prevm,
                    toks@.map(|k: int, t: Token| t@),
                    TokenV::Ident(src@.subrange(i as int, j as int)),
                );
            }
            i = j;
        } else if b >= 0x30u8 && b <= 0x39u8 {
            let mut acc: i64 = 0;
            let mut j = i;
            while j < n && src[j] >= 0x30u8 && src[j] <= 0x39u8
                invariant
                    n == src@.len(),
                    i <= j <= n,
                    0 <= acc,
                    spec_tokenize(src@) == match spec_tok_from(src@, i as int) {
                        Some(rest) => Some(toks@.map(|k: int, t: Token| t@) + rest),
                        None => None::<Seq<TokenV>>,
                    },
                    acc == spec_digits_val(src@, i as int, j as int),
                    forall|k: int| i <= k < j ==> spec_digit(#[trigger] src@[k]),
                    spec_scan_end(src@, j as int, digit_f()) == spec_scan_end(
                        src@,
                        i as int,
                        digit_f(),
                    ),
                decreases n - j,
            {
                let d = (src[j] - 0x30u8) as i64;
                if acc > (i64::MAX - d) / 10 {
                    proof {
                        assert(acc * 10 + d > i64::MAX) by (nonlinear_arith)
                            requires
                                0 <= acc,
                                0 <= d <= 9,
                                acc > (i64::MAX - d) / 10,
                        ;
                        lemma_scan_end_bounds(src@, i as int, digit_f());
                        let e = spec_scan_end(src@, i as int, digit_f());
                        assert(spec_scan_end(src@, j as int, digit_f()) == e);
                        assert(j < e <= src@.len());
                        assert(spec_digits_val(src@, i as int, j as int + 1) == acc * 10 + d);
                        lemma_digits_val_monotone(src@, i as int, j as int + 1, e);
                        assert(spec_digits_val(src@, i as int, e) > i64::MAX);
                        assert(spec_tok_from(src@, i as int) is None);
                    }
                    return Err(SyntaxError { message: "integer literal out of range" });
                }
                proof {
                    assert(acc * 10 + d <= i64::MAX) by (nonlinear_arith)
                        requires
                            0 <= acc,
                            0 <= d <= 9,
                            acc <= (i64::MAX - d) / 10,
                    ;
                }
                acc = acc * 10 + d;
                j = j + 1;
            }
            proof {
                assert(spec_scan_end(src@, j as int, digit_f()) == j as int);
                lemma_scan_end_bounds(src@, i as int, digit_f());
            }
            toks.push(Token::IntLit(acc));
            proof {
                lemma_tok_push(prevm, toks@.map(|k: int, t: Token| t@), TokenV::IntLit(acc));
            }
            i = j;
        } else {
            return Err(SyntaxError { message: "unexpected character" });
        }
    }
    proof {
        assert(spec_tok_from(src@, n as int) == Some(Seq::<TokenV>::empty()));
        assert(toks@.map(|k: int, t: Token| t@) + Seq::<TokenV>::empty() =~= toks@.map(
            |k: int, t: Token| t@,
        ));
    }
    Ok(toks)
}

/// Appending a token to the emitted list matches prepending its value to
/// the rest of the tokenization.
proof fn lemma_tok_push(prevm: Seq<TokenV>, newm: Seq<TokenV>, t: TokenV)
    requires
        newm.len() == prevm.len() + 1,
        forall|x: int| 0 <= x < prevm.len() ==> newm[x] == prevm[x],
        newm[prevm.len() as int] == t,
    ensures
        forall|rest: Seq<TokenV>| prevm + (#[trigger] (seq![t] + rest)) == newm + rest,
{
    assert forall|rest: Seq<TokenV>| prevm + (#[trigger] (seq![t] + rest)) == newm + rest by {
        assert(prevm + (seq![t] + rest) =~= newm + rest);
    }
}

/// The UTF-8 bytes of a bare keyword.
pub open spec fn spec_kw(s: Seq<char>) -> Seq<u8> {
    encode_utf8(s)
}

/// First position of `name` among the declared pattern names, or -1.
pub open spec fn spec_find_bytes(names: Seq<Seq<u8>>, name: Seq<u8>) -> int
    decreases names.len(),
{
    if names.len() == 0 {
        -1
    } else if names[0] == name {
        0
    } else {
        let r = spec_find_bytes(names.drop_first(), name);
        if r < 0 {
            -1
        } else {
            r + 1
        }
    }
}

/// `spec_find_bytes` reports the first position holding `name`, or -1
/// when no position does.
pub proof fn lemma_find_bytes_props(names: Seq<Seq<u8>>, name: Seq<u8>)
    ensures
        (spec_find_bytes(names, name) == -1) <==> (forall|j: int|
            0 <= j < names.len() ==> names[j] != name),
        spec_find_bytes(names, name) != -1 ==> {
            let f = spec_find_bytes(names, name);
            &&& 0 <= f < names.len()
            &&& names[f] == name
            &&& forall|j: int| 0 <= j < f ==> names[j] != name
        },
    decreases names.len(),
{
    if names.len() == 0 {
    } else if names[0] == name {
    } else {
        lemma_find_bytes_props(names.drop_first(), name);
        assert forall|j: int| 1 <= j < names.len() implies names.drop_first()[j - 1]
            == names[j] by {}
    }
}

/// Parses a comparison operand: `filesize` or an integer literal.
pub open spec fn spec_parse_term(toks: Seq<TokenV>, pos: int) -> Option<(Term, int)> {
    if pos < 0 || pos >= toks.len() {
        None
    } else {
        match toks[pos] {
            TokenV::Ident(v) => if v == spec_kw("filesize"@) {
                Some((Term::Filesize, pos + 1))
            } else {
                None
            },
            TokenV::IntLit(v) => Some((Term::Int(v), pos + 1)),
            _ => None,
        }
    }
}

/// Parses a comparison of two terms.
pub open spec fn spec_parse_cmp(toks: Seq<TokenV>, pos: int) -> Option<(Expr, int)> {
    match spec_parse_term(toks, pos) {
        None => None,
        Some((t1, p1)) => if 0 <= p1 < toks.len() && toks[p1] is CmpTok {
            let op = toks[p1]->CmpTok_0;
            match spec_parse_term(toks, p1 + 1) {
                None => None,
                Some((t2, p2)) => Some((Expr::Cmp(op, t1, t2), p2)),
            }
        } else {
            None
        },
    }
}

/// Parses a primary expression: a boolean constant, a parenthesised
/// expression, a pattern reference, or a comparison of two terms.
pub open spec fn spec_parse_primary(toks: Seq<TokenV>, pos: int, names: Seq<Seq<u8>>) -> Option<
    (Expr, int),
>
    decreases toks.len() - pos, 0int,
{
    if pos < 0 || pos >= toks.len() {
        None
    } else {
        match toks[pos] {
            TokenV::Ident(v) => if v == spec_kw("true"@) {
                Some((Expr::True, pos + 1))
            } else if v == spec_kw("false"@) {
                Some((Expr::False, pos + 1))
            } else {
                spec_parse_cmp(toks, pos)
            },
            TokenV::LParen => match spec_parse_or(toks, pos + 1, names) {
                None => None,
                Some((e, p)) => if 0 <= p < toks.len() && toks[p] == TokenV::RParen {
                    Some((e, p + 1))
                } else {
                    None
                },
            },
            TokenV::Dollar(name) => {
                let f = spec_find_bytes(names, name);
                if f >= 0 {
                    Some((Expr::Pat(f as u32), pos + 1))
                } else {
                    None
                }
            },
            TokenV::IntLit(_) => spec_parse_cmp(toks, pos),
            _ => None,
        }
    }
}

/// Parses a negation: any number of `not`s before a primary expression.
pub open spec fn spec_parse_not(toks: Seq<TokenV>, pos: int, names: Seq<Seq<u8>>) -> Option<
    (Expr, int),
>
    decreases toks.len() - pos, 1int,
{
    if 0 <= pos < toks.len() && toks[pos] == TokenV::Ident(spec_kw("not"@)) {
        match spec_parse_not(toks, pos + 1, names) {
            None => None,
            Some((e, p)) => Some((Expr::Not(Box::new(e)), p)),
        }
    } else {
        spec_parse_primary(toks, pos, names)
    }
}

/// Folds further `and` operands onto an already parsed conjunct.
pub open spec fn spec_parse_and_more(
    toks: Seq<TokenV>,
    pos: int,
    names: Seq<Seq<u8>>,
    acc: Expr,
) -> Option<(Expr, int)>
    decreases toks.len() - pos, 2int,
{
    if !(0 <= pos < toks.len()) || toks[pos] != TokenV::Ident(spec_kw("and"@)) {
        Some((acc, pos))
    } else {
        match spec_parse_not(toks, pos + 1, names) {
            None => None,
            Some((rhs, p2)) => if pos < p2 <= toks.len() {
                spec_parse_and_more(toks, p2, names, Expr::And(Box::new(acc), Box::new(rhs)))
            } else {
                None
            },
        }
    }
}

/// Parses a conjunction: negations joined by `and`.
pub open spec fn spec_parse_and(toks: Seq<TokenV>, pos: int, names: Seq<Seq<u8>>) -> Option<
    (Expr, int),
>
    decreases toks.len() - pos, 3int,
{
    match spec_parse_not(toks, pos, names) {
        None => None,
        Some((first, p0)) => if pos < p0 <= toks.len() {
            spec_parse_and_more(toks, p0, names, first)
        } else {
            None
        },
    }
}

/// Folds further `or` operands onto an already parsed disjunct.
pub open spec fn spec_parse_or_more(
    toks: Seq<TokenV>,
    pos: int,
    names: Seq<Seq<u8>>,
    acc: Expr,
) -> Option<(Expr, int)>
    decreases toks.len() - pos, 4int,
{
    if !(0 <= pos < toks.len()) || toks[pos] != TokenV::Ident(spec_kw("or"@)) {
        Some((acc, pos))
    } else {
        match spec_parse_and(toks, pos + 1, names) {
            None => None,
            Some((rhs, p2)) => if pos < p2 <= toks.len() {
                spec_parse_or_more(toks, p2, names, Expr::Or(Box::new(acc), Box::new(rhs)))
            } else {
                None
            },
        }
    }
}

/// Parses a disjunction: conjunctions joined by `or`. This is the
/// definition of the condition grammar.
pub open spec fn spec_parse_or(toks: Seq<TokenV>, pos: int, names: Seq<Seq<u8>>) -> Option<
    (Expr, int),
>
    decreases toks.len() - pos, 5int,
{
    match spec_parse_and(toks, pos, names) {
        None => None,
        Some((first, p0)) => if pos < p0 <= toks.len() {
            spec_parse_or_more(toks, p0, names, first)
        } else {
            None
        },
    }
}

/// Whether a token is the given bare keyword.
fn is_kw(t: &Token, kw: &[u8]) -> (r: bool)
    ensures
        r == (t is Ident && t->Ident_0@ == kw@),
{
    match t {
        Token::Ident(v) => bytes_eq(v.as_slice(), kw),
        _ => false,
    }
}

/// Parses a comparison operand: `filesize` or an integer literal.
fn parse_term(tokens: &Vec<Token>, pos: usize) -> (r: Result<(Term, usize), SyntaxError>)
    requires
        pos <= tokens@.len(),
    ensures
        r is Ok ==> pos < r->Ok_0.1 <= tokens@.len(),
        ({
            let d = spec_parse_term(tokens@.map(|k: int, t: Token| t@), pos as int);
            &&& (r is Ok ==> d == Some((r->Ok_0.0, r->Ok_0.1 as int)))
            &&& (r is Err ==> d is None)
        }),
{
    if pos >= tokens.len() {
        return Err(SyntaxError { message: "expected a term" });
    }
    if is_kw(&tokens[pos], "filesize".as_bytes()) {
        Ok((Term::Filesize, pos + 1))
    } else {
        match &tokens[pos] {
            Token::IntLit(v) => Ok((Term::Int(*v), pos + 1)),
            _ => Err(SyntaxError { message: "expected a term" }),
        }
    }
}

/// Index of a pattern name among the rule's declared pattern names.
fn find_pattern(names: &Vec<Vec<u8>>, name: &Vec<u8>) -> (r: Option<usize>)
    ensures
        r is Some ==> r->0 < names@.len(),
        ({
            let f = spec_find_bytes(names@.map(|k: int, v: Vec<u8>| v@), name@);
            &&& (r is Some ==> f == r->0 as int)
            &&& (r is None ==> f == -1)
        }),
{
    let ghost nv = names@.map(|k: int, v: Vec<u8>| v@);
    let n = names.len();
    for i in 0..n
        invariant
            n == names@.len(),
            nv == names@.map(|k: int, v: Vec<u8>| v@),
            forall|j: int| 0 <= j < i ==> nv[j] != name@,
    {
        if bytes_eq(names[i].as_slice(), name.as_slice()) {
            proof {
                assert(nv[i as int] == name@);
                lemma_find_bytes_props(nv, name@);
                let f = spec_find_bytes(nv, name@);
                if f < i as int {
                    assert(nv[f] != name@);
                    assert(nv[f] == name@);
                } else if f > i as int {
                    assert(nv[i as int] != name@);
                }
            }
            return Some(i);
        }
        proof {
            assert(nv[i as int] != name@);
        }
    }
    proof {
        lemma_find_bytes_props(nv, name@);
    }
    None
}

/// Parses a primary expression: a boolean constant, a parenthesised
/// expression, a pattern reference, or a comparison of two terms.
fn parse_primary(tokens: &Vec<Token>, pos: usize, names: &Vec<Vec<u8>>) -> (r: Result<
    (Expr, usize),
    SyntaxError,
>)
    requires
        pos <= tokens@.len(),
        names@.len() <= u32::MAX,
    ensures
        r is Ok ==> pos < r->Ok_0.1 <= tokens@.len() && expr_wf(r->Ok_0.0, names@.len() as int),
        ({
            let d = spec_parse_primary(
                tokens@.map(|k: int, t: Token| t@),
                pos as int,
                names@.map(|k: int, v: Vec<u8>| v@),
            );
            &&& (r is Ok ==> d == Some((r->Ok_0.0, r->Ok_0.1 as int)))
            &&& (r is Err ==> d is None)
        }),
    decreases tokens@.len() - pos, 0int,
{
    if pos >= tokens.len() {
        return Err(SyntaxError { message: "expected an expression" });
    }
    if is_kw(&tokens[pos], "true".as_bytes()) {
        return Ok((Expr::True, pos + 1));
    }
    if is_kw(&tokens[pos], "false".as_bytes()) {
        return Ok((Expr::False, pos + 1));
    }
    match &tokens[pos] {
        Token::LParen => {
            let (e, p) = match parse_or(tokens, pos + 1, names) {
                Ok(v) => v,
                Err(e) => {
                    return Err(e);
                },
            };
            if p < tokens.len() {
                match &tokens[p] {
                    Token::RParen => Ok((e, p + 1)),
                    _ => Err(SyntaxError { message: "expected a closing parenthesis" }),
                }
            } else {
                Err(SyntaxError { message: "expected a closing parenthesis" })
            }
        },
        Token::Dollar(name) => {
            match find_pattern(names, name) {
                Some(k) => Ok((Expr::Pat(k as u32), pos + 1)),
                None => Err(SyntaxError { message: "unknown pattern identifier" }),
            }
        },
        _ => {
            let (t1, p1) = match parse_term(tokens, pos) {
                Ok(v) => v,
                Err(e) => {
                    return Err(e);
                },
            };
            if p1 >= tokens.len() {
                return Err(SyntaxError { message: "expected a comparison operator" });
            }
            let op = match &tokens[p1] {
                Token::CmpTok(op) => *op,
                _ => {
                    return Err(SyntaxError { message: "expected a comparison operator" });
                },
            };
            let (t2, p2) = match parse_term(tokens, p1 + 1) {
                Ok(v) => v,
                Err(e) => {
                    return Err(e);
                },
            };
            Ok((Expr::Cmp(op, t1, t2), p2))
        },
    }
}

/// Parses a negation: any number of `not`s before a primary expression.
fn parse_not(tokens: &Vec<Token>, pos: usize, names: &Vec<Vec<u8>>) -> (r: Result<
    (Expr, usize),
    SyntaxError,
>)
    requires
        pos <= tokens@.len(),
        names@.len() <= u32::MAX,
    ensures
        r is Ok ==> pos < r->Ok_0.1 <= tokens@.len() && expr_wf(r->Ok_0.0, names@.len() as int),
        ({
            let d = spec_parse_not(
                tokens@.map(|k: int, t: Token| t@),
                pos as int,
                names@.map(|k: int, v: Vec<u8>| v@),
            );
            &&& (r is Ok ==> d == Some((r->Ok_0.0, r->Ok_0.1 as int)))
            &&& (r is Err ==> d is None)
        }),
    decreases tokens@.len() - pos, 1int,
{
    if pos < tokens.len() && is_kw(&tokens[pos], "not".as_bytes()) {
        let (e, p) = match parse_not(tokens, pos + 1, names) {
            Ok(v) => v,
            Err(e) => {
                return Err(e);
            },
        };
        Ok((Expr::Not(Box::new(e)), p))
    } else {
        parse_primary(tokens, pos, names)
    }
}

/// Parses a conjunction: negations joined by `and`.
fn parse_and(tokens: &Vec<Token>, pos: usize, names: &Vec<Vec<u8>>) -> (r: Result<
    (Expr, usize),
    SyntaxError,
>)
    requires
        pos <= tokens@.len(),
        names@.len() <= u32::MAX,
    ensures
        r is Ok ==> pos < r->Ok_0.1 <= tokens@.len() && expr_wf(r->Ok_0.0, names@.len() as int),
        ({
            let d = spec_parse_and(
                tokens@.map(|k: int, t: Token| t@),
                pos as int,
                names@.map(|k: int, v: Vec<u8>| v@),
            );
            &&& (r is Ok ==> d == Some((r->Ok_0.0, r->Ok_0.1 as int)))
            &&& (r is Err ==> d is None)
        }),
    decreases tokens@.len() - pos, 2int,
{
    let ghost tv = tokens@.map(|k: int, t: Token| t@);
    let ghost nv = names@.map(|k: int, v: Vec<u8>| v@);
    let (first, p0) = match parse_not(tokens, pos, names) {
        Ok(v) => v,
        Err(e) => {
            return Err(e);
        },
    };
    let mut acc = first;
    let mut p = p0;
    while p < tokens.len() && is_kw(&tokens[p], "and".as_bytes())
        invariant
            pos < p <= tokens@.len(),
            names@.len() <= u32::MAX,
            tv == tokens@.map(|k: int, t: Token| t@),
            nv == names@.map(|k: int, v: Vec<u8>| v@),
            expr_wf(acc, names@.len() as int),
            spec_parse_and(tv, pos as int, nv) == spec_parse_and_more(tv, p as int, nv, acc),
        decreases tokens@.len() - p,
    {
        proof {
            assert(tv[p as int] == tokens@[p as int]@);
        }
        let (rhs, p2) = match parse_not(tokens, p + 1, names) {
            Ok(v) => v,
            Err(e) => {
                proof {
                    assert(spec_parse_and_more(tv, p as int, nv, acc) is None);
                }
                return Err(e);
            },
        };
        acc = Expr::And(Box::new(acc), Box::new(rhs));
        p = p2;
    }
    proof {
        if p < tokens@.len() {
            assert(tv[p as int] == tokens@[p as int]@);
        }
        assert(spec_parse_and_more(tv, p as int, nv, acc) == Some((acc, p as int)));
    }
    Ok((acc, p))
}

/// Parses a disjunction: conjunctions joined by `or`.
fn parse_or(tokens: &Vec<Token>, pos: usize, names: &Vec<Vec<u8>>) -> (r: Result<
    (Expr, usize),
    SyntaxError,
>)
    requires
        pos <= tokens@.len(),
        names@.len() <= u32::MAX,
    ensures
        r is Ok ==> pos < r->Ok_0.1 <= tokens@.len() && expr_wf(r->Ok_0.0, names@.len() as int),
        ({
            let d = spec_parse_or(
                tokens@.map(|k: int, t: Token| t@),
                pos as int,
                names@.map(|k: int, v: Vec<u8>| v@),
            );
            &&& (r is Ok ==> d == Some((r->Ok_0.0, r->Ok_0.1 as int)))
            &&& (r is Err ==> d is None)
        }),
    decreases tokens@.len() - pos, 3int,
{
    let ghost tv = tokens@.map(|k: int, t: Token| t@);
    let ghost nv = names@.map(|k: int, v: Vec<u8>| v@);
    let (first, p0) = match parse_and(tokens, pos, names) {
        Ok(v) => v,
        Err(e) => {
            return Err(e);
        },
    };
    let mut acc = first;
    let mut p = p0;
    while p < tokens.len() && is_kw(&tokens[p], "or".as_bytes())
        invariant
            pos < p <= tokens@.len(),
            names@.len() <= u32::MAX,
            tv == tokens@.map(|k: int, t: Token| t@),
            nv == names@.map(|k: int, v: Vec<u8>| v@),
            expr_wf(acc, names@.len() as int),
            spec_parse_or(tv, pos as int, nv) == spec_parse_or_more(tv, p as int, nv, acc),
        decreases tokens@.len() - p,
    {
        proof {
            assert(tv[p as int] == tokens@[p as int]@);
        }
        let (rhs, p2) = match parse_and(tokens, p + 1, names) {
            Ok(v) => v,
            Err(e) => {
                proof {
                    assert(spec_parse_or_more(tv, p as int, nv, acc) is None);
                }
                return Err(e);
            },
        };
        acc = Expr::Or(Box::new(acc), Box::new(rhs));
        p = p2;
    }
    proof {
        if p < tokens@.len() {
            assert(tv[p as int] == tokens@[p as int]@);
        }
        assert(spec_parse_or_more(tv, p as int, nv, acc) == Some((acc, p as int)));
    }
    Ok((acc, p))
}

/// The metadata value a single token declares, if any.
pub open spec fn spec_meta_value_of(t: TokenV) -> Option<MetaValueV> {
    match t {
        TokenV::StrLit(v) => Some(MetaValueV::Str(crate::bytes::lossy_of(v))),
        TokenV::IntLit(v) => Some(MetaValueV::Int(v)),
        TokenV::Ident(v) => if v == spec_kw("true"@) {
            Some(MetaValueV::Bool(true))
        } else if v == spec_kw("false"@) {
            Some(MetaValueV::Bool(false))
        } else {
            None
        },
        _ => None,
    }
}

/// Folds metadata entries while a `key =` pair is ahead; a repeated key is
/// an error.
pub open spec fn spec_parse_meta_more(
    toks: Seq<TokenV>,
    pos: int,
    acc: Seq<(Seq<char>, MetaValueV)>,
) -> Option<(Seq<(Seq<char>, MetaValueV)>, int)>
    decreases toks.len() - pos,
{
    let more = 0 <= pos && pos + 1 < toks.len() && toks[pos] is Ident && toks[pos + 1]
        == TokenV::Assign;
    if !more {
        Some((acc, pos))
    } else {
        let key_bytes = toks[pos]->Ident_0;
        if pos + 2 >= toks.len() {
            None
        } else {
            match spec_meta_value_of(toks[pos + 2]) {
                None => None,
                Some(v) => {
                    let key = crate::bytes::lossy_of(key_bytes);
                    if exists|j: int| 0 <= j < acc.len() && (#[trigger] acc[j]).0 == key {
                        None
                    } else {
                        spec_parse_meta_more(toks, pos + 3, acc.push((key, v)))
                    }
                },
            }
        }
    }
}

/// Folds pattern declarations while a `$name` is ahead; an empty byte
/// string or a repeated name is an error.
pub open spec fn spec_parse_strings_more(
    toks: Seq<TokenV>,
    pos: int,
    pats: Seq<PatternV>,
    names: Seq<Seq<u8>>,
) -> Option<((Seq<PatternV>, Seq<Seq<u8>>), int)>
    decreases toks.len() - pos,
{
    let more = 0 <= pos < toks.len() && toks[pos] is Dollar;
    if !more {
        Some(((pats, names), pos))
    } else {
        let pname = toks[pos]->Dollar_0;
        if pos + 1 >= toks.len() || toks[pos + 1] != TokenV::Assign {
            None
        } else if pos + 2 >= toks.len() || !(toks[pos + 2] is StrLit) {
            None
        } else {
            let bytes = toks[pos + 2]->StrLit_0;
            if bytes.len() == 0 {
                None
            } else if names.len() >= u32::MAX {
                None
            } else if spec_find_bytes(names, pname) >= 0 {
                None
            } else {
                let ident = crate::bytes::lossy_of(seq![0x24u8] + pname);
                spec_parse_strings_more(
                    toks,
                    pos + 3,
                    pats.push(PatternV { identifier: ident, bytes }),
                    names.push(pname),
                )
            }
        }
    }
}

/// The condition section and closing brace, after the pattern section.
pub open spec fn spec_rule_after_strings(
    toks: Seq<TokenV>,
    name_bytes: Seq<u8>,
    meta: Seq<(Seq<char>, MetaValueV)>,
    pats: Seq<PatternV>,
    names: Seq<Seq<u8>>,
    p5: int,
) -> Option<(CompiledRuleV, int)> {
    if !(0 <= p5 < toks.len() && toks[p5] == TokenV::Ident(spec_kw("condition"@))) {
        None
    } else if !(p5 + 1 < toks.len() && toks[p5 + 1] == TokenV::Colon) {
        None
    } else {
        match spec_parse_or(toks, p5 + 2, names) {
            None => None,
            Some((e, p6)) => if !(0 <= p6 < toks.len() && toks[p6] == TokenV::RBrace) {
                None
            } else {
                Some(
                    (
                        CompiledRuleV {
                            identifier: crate::bytes::lossy_of(name_bytes),
                            namespace: Seq::empty(),
                            metadata: meta,
                            patterns: pats,
                            program: spec_gen(e),
                        },
                        p6 + 1,
                    ),
                )
            },
        }
    }
}

/// The pattern section (if present) and the rest of the rule, after the
/// metadata section.
pub open spec fn spec_rule_after_meta(
    toks: Seq<TokenV>,
    name_bytes: Seq<u8>,
    meta: Seq<(Seq<char>, MetaValueV)>,
    p4: int,
) -> Option<(CompiledRuleV, int)> {
    let strs_r = if 0 <= p4 < toks.len() && toks[p4] == TokenV::Ident(spec_kw("strings"@)) {
        if p4 + 1 < toks.len() && toks[p4 + 1] == TokenV::Colon {
            spec_parse_strings_more(toks, p4 + 2, Seq::empty(), Seq::empty())
        } else {
            None
        }
    } else {
        Some(((Seq::empty(), Seq::empty()), p4))
    };
    match strs_r {
        None => None,
        Some(((pats, names), p5)) => spec_rule_after_strings(toks, name_bytes, meta, pats, names, p5),
    }
}

/// Parses one rule declaration: this and the token grammar define what a
/// source text compiles to.
pub open spec fn spec_parse_rule(toks: Seq<TokenV>, pos: int) -> Option<(CompiledRuleV, int)> {
    if !(0 <= pos < toks.len() && toks[pos] == TokenV::Ident(spec_kw("rule"@))) {
        None
    } else if !(pos + 1 < toks.len() && toks[pos + 1] is Ident) {
        None
    } else {
        let name_bytes = toks[pos + 1]->Ident_0;
        if !(pos + 2 < toks.len() && toks[pos + 2] == TokenV::LBrace) {
            None
        } else {
            let p3 = pos + 3;
            let meta_r = if p3 < toks.len() && toks[p3] == TokenV::Ident(spec_kw("meta"@)) {
                if p3 + 1 < toks.len() && toks[p3 + 1] == TokenV::Colon {
                    spec_parse_meta_more(toks, p3 + 2, Seq::empty())
                } else {
                    None
                }
            } else {
                Some((Seq::empty(), p3))
            };
            match meta_r {
                None => None,
                Some((meta, p4)) => spec_rule_after_meta(toks, name_bytes, meta, p4),
            }
        }
    }
}

/// Folds the top-level items: `import` statements and rule declarations.
pub open spec fn spec_compile_items(
    toks: Seq<TokenV>,
    pos: int,
    rules: Seq<CompiledRuleV>,
    imports: Seq<Seq<char>>,
) -> Option<CompiledRulesV>
    decreases toks.len() - pos,
{
    if !(0 <= pos < toks.len()) {
        Some(CompiledRulesV { rules, imports })
    } else if toks[pos] == TokenV::Ident(spec_kw("import"@)) {
        if !(pos + 1 < toks.len() && toks[pos + 1] is StrLit) {
            None
        } else {
            let name = crate::bytes::lossy_of(toks[pos + 1]->StrLit_0);
            if !crate::rules::is_builtin_module(name) {
                None
            } else {
                spec_compile_items(toks, pos + 2, rules, imports.push(name))
            }
        }
    } else {
        if rules.len() >= u32::MAX {
            None
        } else {
            match spec_parse_rule(toks, pos) {
                None => None,
                Some((rv, p2)) => if pos < p2 <= toks.len() {
                    spec_compile_items(toks, p2, rules.push(rv), imports)
                } else {
                    None
                },
            }
        }
    }
}

/// What a source text compiles to: the tokenization and the grammar above.
pub open spec fn spec_compile(src: Seq<u8>) -> Option<CompiledRulesV> {
    match spec_tokenize(src) {
        None => None,
        Some(toks) => spec_compile_items(toks, 0, Seq::empty(), Seq::empty()),
    }
}

/// Parses one rule declaration — identifier, optional metadata, optional
/// patterns, and the condition — and compiles the condition.
/// Whether a metadata entry (`IDENT =`) starts at `p`.
fn meta_ahead(tokens: &Vec<Token>, p: usize) -> (r: bool)
    ensures
        r == (p + 1 < tokens@.len() && tokens@[p as int]@ is Ident && tokens@[p as int + 1]@
            == TokenV::Assign),
{
    if p < tokens.len() && p + 1 < tokens.len() {
        let k_ok = match &tokens[p] {
            Token::Ident(_) => true,
            _ => false,
        };
        let a_ok = match &tokens[p + 1] {
            Token::Assign => true,
            _ => false,
        };
        k_ok && a_ok
    } else {
        false
    }
}

/// Whether a pattern declaration (`$name`) starts at `p`.
fn dollar_ahead(tokens: &Vec<Token>, p: usize) -> (r: bool)
    ensures
        r == (p < tokens@.len() && tokens@[p as int]@ is Dollar),
{
    if p < tokens.len() {
        match &tokens[p] {
            Token::Dollar(_) => true,
            _ => false,
        }
    } else {
        false
    }
}

/// Parses the metadata entries after `meta:` into an empty table.
#[verifier::rlimit(100)]
#[verifier::spinoff_prover]
fn parse_meta_entries(
    tokens: &Vec<Token>,
    pos: usize,
    metadata: &mut Vec<(String, MetaValue)>,
) -> (r: Result<usize, SyntaxError>)
    requires
        pos <= tokens@.len(),
        old(metadata)@.len() == 0,
    ensures
        r is Ok ==> pos <= r->Ok_0 <= tokens@.len(),
        forall|i: int, j: int|
            0 <= i < j < final(metadata)@.len() ==> (#[trigger] final(metadata)@[i]).0@ != (
            #[trigger] final(metadata)@[j]).0@,
        ({
            let d = spec_parse_meta_more(
                tokens@.map(|k: int, t: Token| t@),
                pos as int,
                Seq::empty(),
            );
            &&& (r is Ok ==> d == Some(
                (
                    final(metadata)@.map(|k: int, kv: (String, MetaValue)| (kv.0@, kv.1@)),
                    r->Ok_0 as int,
                ),
            ))
            &&& (r is Err ==> d is None)
        }),
{
    let ghost tv = tokens@.map(|k: int, t: Token| t@);
    let n = tokens.len();
    let mut p = pos;
    proof {
        assert(metadata@.map(|k: int, kv: (String, MetaValue)| (kv.0@, kv.1@)) =~= Seq::<(
            Seq<char>,
            MetaValueV,
        )>::empty());
    }
    while meta_ahead(tokens, p)
        invariant
            n == tokens@.len(),
            pos <= p <= n,
            tv == tokens@.map(|k: int, t: Token| t@),
            forall|i: int, j: int|
                0 <= i < j < metadata@.len() ==> (#[trigger] metadata@[i]).0@ != (
                #[trigger] metadata@[j]).0@,
            spec_parse_meta_more(tv, pos as int, Seq::empty()) == spec_parse_meta_more(
                tv,
                p as int,
                metadata@.map(|k: int, kv: (String, MetaValue)| (kv.0@, kv.1@)),
            ),
        decreases n - p,
    {
        let ghost mview = metadata@.map(|k: int, kv: (String, MetaValue)| (kv.0@, kv.1@));
        let key_bytes = match &tokens[p] {
            Token::Ident(v) => copy_bytes(v.as_slice()),
            _ => {
                return Err(SyntaxError { message: "expected a metadata key" });
            },
        };
        let ghost kb = key_bytes@;
        proof {
            assert(tv[p as int] == TokenV::Ident(kb));
        }
        p = p + 2;
        if p >= n {
            proof {
                assert(spec_parse_meta_more(tv, p as int - 2, mview) is None);
            }
            return Err(SyntaxError { message: "expected a metadata value" });
        }
        let value = match &tokens[p] {
            Token::StrLit(v) => MetaValue::Str(utf8_lossy(v.as_slice())),
            Token::IntLit(v) => MetaValue::Int(*v),
            t => {
                if is_kw(t, "true".as_bytes()) {
                    MetaValue::Bool(true)
                } else if is_kw(t, "false".as_bytes()) {
                    MetaValue::Bool(false)
                } else {
                    proof {
                        assert(spec_meta_value_of(tv[p as int]) is None);
                        assert(spec_parse_meta_more(tv, p as int - 2, mview) is None);
                    }
                    return Err(SyntaxError { message: "expected a metadata value" });
                }
            },
        };
        proof {
            assert(spec_meta_value_of(tv[p as int]) == Some(value@));
        }
        p = p + 1;
        let key = utf8_lossy(key_bytes.as_slice());
        let m = metadata.len();
        let mut dup = false;
        for i in 0..m
            invariant
                m == metadata@.len(),
                key@ == crate::bytes::lossy_of(kb),
                dup <==> exists|j: int|
                    0 <= j < i && (#[trigger] metadata@[j]).0@ == key@,
        {
            let same = metadata[i].0 == key;
            if same {
                proof {
                    assert(metadata@[i as int].0@ == key@);
                }
                dup = true;
            }
        }
        if dup {
            proof {
                let jw = choose|j: int| 0 <= j < metadata@.len() && (#[trigger] metadata@[j]).0@
                    == key@;
                assert(mview[jw].0 == crate::bytes::lossy_of(kb));
                assert(exists|j: int|
                    0 <= j < mview.len() && (#[trigger] mview[j]).0 == crate::bytes::lossy_of(
                        kb,
                    ));
                assert(spec_parse_meta_more(tv, p as int - 3, mview) is None);
            }
            return Err(SyntaxError { message: "duplicate metadata key" });
        }
        proof {
            assert(!(exists|j: int|
                0 <= j < mview.len() && (#[trigger] mview[j]).0 == crate::bytes::lossy_of(kb)));
        }
        let ghost prevm = metadata@.map(|k: int, kv: (String, MetaValue)| (kv.0@, kv.1@));
        metadata.push((key, value));
        proof {
            let newm = metadata@.map(|k: int, kv: (String, MetaValue)| (kv.0@, kv.1@));
            assert(newm.len() == prevm.len() + 1);
            assert(forall|x: int| 0 <= x < prevm.len() ==> newm[x] == prevm[x]);
            assert(newm[prevm.len() as int] == (crate::bytes::lossy_of(kb), value@));
            assert(newm =~= prevm.push((crate::bytes::lossy_of(kb), value@)));
        }
    }
    proof {
        let mview = metadata@.map(|k: int, kv: (String, MetaValue)| (kv.0@, kv.1@));
        assert(spec_parse_meta_more(tv, p as int, mview) == Some((mview, p as int)));
    }
    Ok(p)
}

/// Parses the pattern declarations after `strings:` into empty tables.
#[verifier::rlimit(100)]
#[verifier::spinoff_prover]
fn parse_string_entries(
    tokens: &Vec<Token>,
    pos: usize,
    patterns: &mut Vec<Pattern>,
    names: &mut Vec<Vec<u8>>,
) -> (r: Result<usize, SyntaxError>)
    requires
        pos <= tokens@.len(),
        old(patterns)@.len() == 0,
        old(names)@.len() == 0,
    ensures
        r is Ok ==> pos <= r->Ok_0 <= tokens@.len(),
        final(names)@.len() == final(patterns)@.len(),
        final(names)@.len() <= u32::MAX,
        forall|k: int|
            0 <= k < final(patterns)@.len() ==> (#[trigger] final(patterns)@[k])@.bytes.len()
                > 0,
        ({
            let d = spec_parse_strings_more(
                tokens@.map(|k: int, t: Token| t@),
                pos as int,
                Seq::empty(),
                Seq::empty(),
            );
            &&& (r is Ok ==> d == Some(
                (
                    (
                        final(patterns)@.map(|k: int, x: Pattern| x@),
                        final(names)@.map(|k: int, v: Vec<u8>| v@),
                    ),
                    r->Ok_0 as int,
                ),
            ))
            &&& (r is Err ==> d is None)
        }),
{
    let ghost tv = tokens@.map(|k: int, t: Token| t@);
    let n = tokens.len();
    let mut p = pos;
    proof {
        assert(patterns@.map(|k: int, x: Pattern| x@) =~= Seq::<PatternV>::empty());
        assert(names@.map(|k: int, v: Vec<u8>| v@) =~= Seq::<Seq<u8>>::empty());
    }
    while dollar_ahead(tokens, p)
        invariant
            n == tokens@.len(),
            pos <= p <= n,
            tv == tokens@.map(|k: int, t: Token| t@),
            names@.len() == patterns@.len(),
            names@.len() <= u32::MAX,
            forall|k: int|
                0 <= k < patterns@.len() ==> (#[trigger] patterns@[k])@.bytes.len() > 0,
            spec_parse_strings_more(tv, pos as int, Seq::empty(), Seq::empty())
                == spec_parse_strings_more(
                tv,
                p as int,
                patterns@.map(|k: int, x: Pattern| x@),
                names@.map(|k: int, v: Vec<u8>| v@),
            ),
        decreases n - p,
    {
        let ghost pview = patterns@.map(|k: int, x: Pattern| x@);
        let ghost nview = names@.map(|k: int, v: Vec<u8>| v@);
        let pname = match &tokens[p] {
            Token::Dollar(v) => copy_bytes(v.as_slice()),
            _ => {
                return Err(SyntaxError { message: "expected a pattern identifier" });
            },
        };
        let ghost pnb = pname@;
        proof {
            assert(tv[p as int] == TokenV::Dollar(pnb));
        }
        p = p + 1;
        if p >= n {
            proof {
                assert(spec_parse_strings_more(tv, p as int - 1, pview, nview) is None);
            }
            return Err(SyntaxError { message: "expected an equals sign" });
        }
        match &tokens[p] {
            Token::Assign => {},
            _ => {
                proof {
                    assert(tv[p as int] != TokenV::Assign);
                    assert(spec_parse_strings_more(tv, p as int - 1, pview, nview) is None);
                }
                return Err(SyntaxError { message: "expected an equals sign" });
            },
        }
        proof {
            assert(tv[p as int] == TokenV::Assign);
        }
        p = p + 1;
        if p >= n {
            proof {
                assert(spec_parse_strings_more(tv, p as int - 2, pview, nview) is None);
            }
            return Err(SyntaxError { message: "expected a pattern string" });
        }
        let bytes = match &tokens[p] {
            Token::StrLit(v) => copy_bytes(v.as_slice()),
            _ => {
                proof {
                    assert(!(tv[p as int] is StrLit));
                    assert(spec_parse_strings_more(tv, p as int - 2, pview, nview) is None);
                }
                return Err(SyntaxError { message: "expected a pattern string" });
            },
        };
        proof {
            assert(tv[p as int] == TokenV::StrLit(bytes@));
        }
        p = p + 1;
        if bytes.len() == 0 {
            proof {
                assert(spec_parse_strings_more(tv, p as int - 3, pview, nview) is None);
            }
            return Err(SyntaxError { message: "empty pattern string" });
        }
        if names.len() >= u32::MAX as usize {
            proof {
                assert(spec_parse_strings_more(tv, p as int - 3, pview, nview) is None);
            }
            return Err(SyntaxError { message: "too many patterns" });
        }
        match find_pattern(&names, &pname) {
            Some(_) => {
                proof {
                    assert(spec_find_bytes(nview, pnb) >= 0);
                    assert(spec_parse_strings_more(tv, p as int - 3, pview, nview) is None);
                }
                return Err(SyntaxError { message: "duplicate pattern identifier" });
            },
            None => {},
        }
        let ghost saved_bytes = bytes@;
        let mut id_bytes: Vec<u8> = Vec::new();
        id_bytes.push(0x24u8);
        let mut tail = copy_bytes(pname.as_slice());
        id_bytes.append(&mut tail);
        proof {
            assert(id_bytes@ =~= seq![0x24u8] + pnb);
        }
        let ghost prevp = patterns@.map(|k: int, x: Pattern| x@);
        let ghost prevn = names@.map(|k: int, v: Vec<u8>| v@);
        patterns.push(Pattern { identifier: utf8_lossy(id_bytes.as_slice()), bytes });
        names.push(pname);
        proof {
            let newp = patterns@.map(|k: int, x: Pattern| x@);
            let newn = names@.map(|k: int, v: Vec<u8>| v@);
            let entry = PatternV {
                identifier: crate::bytes::lossy_of(seq![0x24u8] + pnb),
                bytes: saved_bytes,
            };
            assert(newp.len() == prevp.len() + 1);
            assert(forall|x: int| 0 <= x < prevp.len() ==> newp[x] == prevp[x]);
            assert(newp[prevp.len() as int] == entry);
            assert(newp =~= prevp.push(entry));
            assert(newn.len() == prevn.len() + 1);
            assert(forall|x: int| 0 <= x < prevn.len() ==> newn[x] == prevn[x]);
            assert(newn[prevn.len() as int] == pnb);
            assert(newn =~= prevn.push(pnb));
        }
    }
    proof {
        let pview = patterns@.map(|k: int, x: Pattern| x@);
        let nview = names@.map(|k: int, v: Vec<u8>| v@);
        assert(spec_parse_strings_more(tv, p as int, pview, nview) == Some(
            ((pview, nview), p as int),
        ));
    }
    Ok(p)
}

#[verifier::rlimit(100)]
#[verifier::spinoff_prover]
fn parse_rule(tokens: &Vec<Token>, pos: usize) -> (r: Result<(CompiledRule, usize), SyntaxError>)
    requires
        pos <= tokens@.len(),
    ensures
        r is Ok ==> {
            &&& pos < r->Ok_0.1 <= tokens@.len()
            &&& r->Ok_0.0@.wf()
            &&& total_prog(r->Ok_0.0@.program, r->Ok_0.0@.patterns.len() as int)
        },
        ({
            let d = spec_parse_rule(tokens@.map(|k: int, t: Token| t@), pos as int);
            &&& (r is Ok ==> d == Some((r->Ok_0.0@, r->Ok_0.1 as int)))
            &&& (r is Err ==> d is None)
        }),
{
    let ghost tv = tokens@.map(|k: int, t: Token| t@);
    let n = tokens.len();
    let mut p = pos;
    if p >= n || !is_kw(&tokens[p], "rule".as_bytes()) {
        return Err(SyntaxError { message: "expected a rule declaration" });
    }
    proof {
        assert(tv[pos as int] == TokenV::Ident(spec_kw("rule"@)));
    }
    p = p + 1;
    if p >= n {
        return Err(SyntaxError { message: "expected a rule identifier" });
    }
    let name_bytes = match &tokens[p] {
        Token::Ident(v) => copy_bytes(v.as_slice()),
        _ => {
            proof {
                assert(!(tv[pos as int + 1] is Ident));
            }
            return Err(SyntaxError { message: "expected a rule identifier" });
        },
    };
    let ghost nb = name_bytes@;
    proof {
        assert(tv[pos as int + 1] == TokenV::Ident(nb));
    }
    p = p + 1;
    if p >= n {
        return Err(SyntaxError { message: "expected an opening brace" });
    }
    match &tokens[p] {
        Token::LBrace => {},
        _ => {
            proof {
                assert(tv[pos as int + 2] != TokenV::LBrace);
            }
            return Err(SyntaxError { message: "expected an opening brace" });
        },
    }
    proof {
        assert(tv[pos as int + 2] == TokenV::LBrace);
    }
    p = p + 1;
    let mut metadata: Vec<(String, MetaValue)> = Vec::new();
    let mut patterns: Vec<Pattern> = Vec::new();
    let mut names: Vec<Vec<u8>> = Vec::new();
    // Metadata section.
    if p < n && is_kw(&tokens[p], "meta".as_bytes()) {
        proof {
            assert(tv[p as int] == TokenV::Ident(spec_kw("meta"@)));
        }
        p = p + 1;
        if p >= n {
            return Err(SyntaxError { message: "expected a colon after meta" });
        }
        match &tokens[p] {
            Token::Colon => {},
            _ => {
                proof {
                    assert(tv[p as int] != TokenV::Colon);
                }
                return Err(SyntaxError { message: "expected a colon after meta" });
            },
        }
        proof {
            assert(tv[p as int] == TokenV::Colon);
        }
        p = p + 1;
        p = match parse_meta_entries(tokens, p, &mut metadata) {
            Ok(v) => v,
            Err(e) => {
                return Err(e);
            },
        };
        proof {
            assert(spec_parse_rule(tv, pos as int) == spec_rule_after_meta(
                tv,
                nb,
                metadata@.map(|k: int, kv: (String, MetaValue)| (kv.0@, kv.1@)),
                p as int,
            ));
        }
    } else {
        proof {
            if (p as int) < tv.len() {
                if tv[p as int] == TokenV::Ident(spec_kw("meta"@)) {
                    assert(tokens@[p as int]@ is Ident);
                    assert(tokens@[p as int]@->Ident_0 == spec_kw("meta"@));
                }
            }
            assert(metadata@.map(|k: int, kv: (String, MetaValue)| (kv.0@, kv.1@)) =~= Seq::<(
                Seq<char>,
                MetaValueV,
            )>::empty());
            assert(spec_parse_rule(tv, pos as int) == spec_rule_after_meta(
                tv,
                nb,
                metadata@.map(|k: int, kv: (String, MetaValue)| (kv.0@, kv.1@)),
                p as int,
            ));
        }
    }
    let ghost mfinal = metadata@.map(|k: int, kv: (String, MetaValue)| (kv.0@, kv.1@));
    proof {
        assert(spec_parse_rule(tv, pos as int) == spec_rule_after_meta(
            tv,
            nb,
            mfinal,
            p as int,
        ));
    }
    // Patterns section.
    if p < n && is_kw(&tokens[p], "strings".as_bytes()) {
        proof {
            assert(tv[p as int] == TokenV::Ident(spec_kw("strings"@)));
        }
        p = p + 1;
        if p >= n {
            return Err(SyntaxError { message: "expected a colon after strings" });
        }
        match &tokens[p] {
            Token::Colon => {},
            _ => {
                proof {
                    assert(tv[p as int] != TokenV::Colon);
                }
                return Err(SyntaxError { message: "expected a colon after strings" });
            },
        }
        proof {
            assert(tv[p as int] == TokenV::Colon);
        }
        p = p + 1;
        p = match parse_string_entries(tokens, p, &mut patterns, &mut names) {
            Ok(v) => v,
            Err(e) => {
                return Err(e);
            },
        };
        proof {
            assert(spec_parse_rule(tv, pos as int) == spec_rule_after_strings(
                tv,
                nb,
                mfinal,
                patterns@.map(|k: int, x: Pattern| x@),
                names@.map(|k: int, v: Vec<u8>| v@),
                p as int,
            ));
        }
    } else {
        proof {
            if (p as int) < tv.len() {
                if tv[p as int] == TokenV::Ident(spec_kw("strings"@)) {
                    assert(tokens@[p as int]@ is Ident);
                    assert(tokens@[p as int]@->Ident_0 == spec_kw("strings"@));
                }
            }
            assert(patterns@.map(|k: int, x: Pattern| x@) =~= Seq::<PatternV>::empty());
            assert(names@.map(|k: int, v: Vec<u8>| v@) =~= Seq::<Seq<u8>>::empty());
            assert(spec_parse_rule(tv, pos as int) == spec_rule_after_strings(
                tv,
                nb,
                mfinal,
                patterns@.map(|k: int, x: Pattern| x@),
                names@.map(|k: int, v: Vec<u8>| v@),
                p as int,
            ));
        }
    }
    let ghost pfinal = patterns@.map(|k: int, x: Pattern| x@);
    let ghost nfinal = names@.map(|k: int, v: Vec<u8>| v@);
    proof {
        assert(spec_parse_rule(tv, pos as int) == spec_rule_after_strings(
            tv,
            nb,
            mfinal,
            pfinal,
            nfinal,
            p as int,
        ));
    }
    // Condition section.
    if p >= n || !is_kw(&tokens[p], "condition".as_bytes()) {
        return Err(SyntaxError { message: "expected a condition" });
    }
    proof {
        assert(tv[p as int] == TokenV::Ident(spec_kw("condition"@)));
    }
    p = p + 1;
    if p >= n {
        return Err(SyntaxError { message: "expected a colon after condition" });
    }
    match &tokens[p] {
        Token::Colon => {},
        _ => {
            proof {
                assert(tv[p as int] != TokenV::Colon);
            }
            return Err(SyntaxError { message: "expected a colon after condition" });
        },
    }
    proof {
        assert(tv[p as int] == TokenV::Colon);
    }
    p = p + 1;
    let (expr, p2) = match parse_or(tokens, p, &names) {
        Ok(v) => v,
        Err(e) => {
            return Err(e);
        },
    };
    p = p2;
    if p >= n {
        return Err(SyntaxError { message: "expected a closing brace" });
    }
    match &tokens[p] {
        Token::RBrace => {},
        _ => {
            proof {
                assert(tv[p as int] != TokenV::RBrace);
            }
            return Err(SyntaxError { message: "expected a closing brace" });
        },
    }
    proof {
        assert(tv[p as int] == TokenV::RBrace);
    }
    p = p + 1;
    let program = gen_condition(&expr, patterns.len());
    let rule = CompiledRule {
        identifier: utf8_lossy(name_bytes.as_slice()),
        namespace: String::new(),
        metadata,
        patterns,
        program,
    };
    proof {
        assert(rule@ == CompiledRuleV {
            identifier: crate::bytes::lossy_of(nb),
            namespace: Seq::empty(),
            metadata: mfinal,
            patterns: pfinal,
            program: spec_gen(expr),
        });
    }
    Ok((rule, p))
}

/// Compiles rule-language source into a compiled-rules artifact: `import`
/// statements first or between rules, each rule compiled in order, its
/// identifier its index. Succeeds exactly when the source tokenizes and
/// parses under the grammar the spec functions define, and the artifact is
/// exactly what they say the source declares; it is well-formed and none
/// of its condition programs can trap.
#[verifier::rlimit(100)]
#[verifier::spinoff_prover]
pub fn compile(src: &[u8]) -> (r: Result<CompiledRules, SyntaxError>)
    ensures
        r is Ok <==> spec_compile(src@) is Some,
        r is Ok ==> Some(r->Ok_0@) == spec_compile(src@),
        r is Ok ==> r->Ok_0@.wf() && r->Ok_0@.total(),
{
    let tokens = match tokenize(src) {
        Ok(t) => t,
        Err(e) => {
            return Err(e);
        },
    };
    let ghost tv = tokens@.map(|k: int, t: Token| t@);
    let mut rules: Vec<CompiledRule> = Vec::new();
    let mut imports: Vec<String> = Vec::new();
    let n = tokens.len();
    let mut p: usize = 0;
    proof {
        assert(rules@.map(|k: int, x: CompiledRule| x@) =~= Seq::<CompiledRuleV>::empty());
        assert(imports@.map(|k: int, x: String| x@) =~= Seq::<Seq<char>>::empty());
    }
    while p < n
        invariant
            n == tokens@.len(),
            p <= n,
            tv == tokens@.map(|k: int, t: Token| t@),
            spec_tokenize(src@) == Some(tv),
            rules@.len() <= u32::MAX,
            forall|i: int| 0 <= i < rules@.len() ==> (#[trigger] rules@[i])@.wf(),
            forall|i: int|
                0 <= i < rules@.len() ==> total_prog(
                    (#[trigger] rules@[i])@.program,
                    rules@[i]@.patterns.len() as int,
                ),
            forall|m: int|
                0 <= m < imports@.len() ==> crate::rules::is_builtin_module(
                    (#[trigger] imports@[m])@,
                ),
            spec_compile_items(tv, 0, Seq::empty(), Seq::empty()) == spec_compile_items(
                tv,
                p as int,
                rules@.map(|k: int, x: CompiledRule| x@),
                imports@.map(|k: int, x: String| x@),
            ),
        decreases n - p,
    {
        let ghost rv = rules@.map(|k: int, x: CompiledRule| x@);
        let ghost iv = imports@.map(|k: int, x: String| x@);
        if is_kw(&tokens[p], "import".as_bytes()) {
            proof {
                assert(tv[p as int] == TokenV::Ident(spec_kw("import"@)));
            }
            p = p + 1;
            if p >= n {
                proof {
                    assert(spec_compile_items(tv, p as int - 1, rv, iv) is None);
                }
                return Err(SyntaxError { message: "expected a module name" });
            }
            let name = match &tokens[p] {
                Token::StrLit(v) => utf8_lossy(v.as_slice()),
                _ => {
                    proof {
                        assert(!(tv[p as int] is StrLit));
                        assert(spec_compile_items(tv, p as int - 1, rv, iv) is None);
                    }
                    return Err(SyntaxError { message: "expected a module name" });
                },
            };
            proof {
                assert(name@ == crate::bytes::lossy_of(tv[p as int]->StrLit_0));
            }
            p = p + 1;
            if !crate::modules::is_builtin(&name) {
                proof {
                    assert(spec_compile_items(tv, p as int - 2, rv, iv) is None);
                }
                return Err(SyntaxError { message: "unknown module" });
            }
            let ghost previ = imports@.map(|k: int, x: String| x@);
            imports.push(name);
            proof {
                let newi = imports@.map(|k: int, x: String| x@);
                assert(newi.len() == previ.len() + 1);
                assert(forall|x: int| 0 <= x < previ.len() ==> newi[x] == previ[x]);
                assert(newi[previ.len() as int] == name@);
                assert(newi =~= previ.push(name@));
            }
        } else {
            proof {
                if tv[p as int] == TokenV::Ident(spec_kw("import"@)) {
                    assert(tokens@[p as int]@ is Ident);
                    assert(tokens@[p as int]@->Ident_0 == spec_kw("import"@));
                }
            }
            if rules.len() >= u32::MAX as usize {
                proof {
                    assert(spec_compile_items(tv, p as int, rv, iv) is None);
                }
                return Err(SyntaxError { message: "too many rules" });
            }
            let (rule, p2) = match parse_rule(&tokens, p) {
                Ok(v) => v,
                Err(e) => {
                    proof {
                        assert(spec_compile_items(tv, p as int, rv, iv) is None);
                    }
                    return Err(e);
                },
            };
            let ghost prevr = rules@.map(|k: int, x: CompiledRule| x@);
            let ghost rulev = rule@;
            rules.push(rule);
            proof {
                let newr = rules@.map(|k: int, x: CompiledRule| x@);
                assert(newr.len() == prevr.len() + 1);
                assert(forall|x: int| 0 <= x < prevr.len() ==> newr[x] == prevr[x]);
                assert(newr[prevr.len() as int] == rulev);
                assert(newr =~= prevr.push(rulev));
            }
            p = p2;
        }
    }
    proof {
        assert(spec_compile_items(
            tv,
            p as int,
            rules@.map(|k: int, x: CompiledRule| x@),
            imports@.map(|k: int, x: String| x@),
        ) == Some(
            CompiledRulesV {
                rules: rules@.map(|k: int, x: CompiledRule| x@),
                imports: imports@.map(|k: int, x: String| x@),
            },
        ));
    }
    let r = CompiledRules { rules, imports };
    proof {
        assert(r@.rules =~= r.rules@.map(|k: int, x: CompiledRule| x@));
        assert(r@.imports =~= r.imports@.map(|k: int, x: String| x@));
        assert(Some(r@) == spec_compile(src@));
        assert forall|i: int| 0 <= i < r@.rules.len() implies (#[trigger] r@.rules[i]).wf() by {
            assert(r@.rules[i] == r.rules@[i]@);
        }
        assert forall|i: int| 0 <= i < r@.rules.len() implies total_prog(
            (#[trigger] r@.rules[i]).program,
            r@.rules[i].patterns.len() as int,
        ) by {
            assert(r@.rules[i] == r.rules@[i]@);
        }
        assert forall|m: int| 0 <= m < r@.imports.len() implies crate::rules::is_builtin_module(
            #[trigger] r@.imports[m],
        ) by {
            assert(r@.imports[m] == r.imports@[m]@);
        }
    }
    Ok(r)
}

} // verus!
