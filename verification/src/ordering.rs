use vstd::prelude::*;

use crate::lexer::{Span, TokenView};
use crate::lexer::{is_vardec_text, Keyword};
use crate::parser::{
    assignment_kind_of, binop_kind_of, is_kw_tok, peek_at, sp_alts, sp_args, sp_binop, sp_block,
    sp_cur_span, sp_expect, sp_expect_ident, sp_expect_kw, sp_expr, sp_expr_stmt, sp_fields,
    sp_fn_dec, sp_fn_dec_args, sp_if_condition, sp_if_stmt, sp_module, sp_module_items,
    sp_postfix, sp_postfix_loop, sp_prev_span, sp_primary, sp_return, sp_stmt, sp_stmts,
    sp_struct_dec, sp_struct_fields, sp_type, sp_type_atomic, sp_vardec, sym, tok_at, Ast,
    ExprNode, ItemNode, Parsed, StmtNode,
};

verus! {

// ---------------------------------------------------------------------------
// Trees whose nodes refer only to nodes before them
// ---------------------------------------------------------------------------

/// Every id in `ids` is one of the first `n`.
pub open spec fn ids_below(ids: Seq<int>, n: int) -> bool {
    forall|k: int| 0 <= k < ids.len() ==> 0 <= #[trigger] ids[k] < n
}

/// Expression `i` refers only to expressions before it.
pub open spec fn expr_ok(e: ExprNode, i: int) -> bool {
    match e {
        ExprNode::Binop { left, right, .. } => 0 <= left < i && 0 <= right < i,
        ExprNode::Symbol { .. } => true,
        ExprNode::Number { .. } => true,
        ExprNode::FnCall { target, args } => 0 <= target < i && ids_below(args, i),
        ExprNode::StructLit { fields, .. } => forall|k: int|
            0 <= k < fields.len() ==> 0 <= #[trigger] fields[k].1 < i,
        ExprNode::FieldAccess { target, .. } => 0 <= target < i,
    }
}

/// The `else if` parts refer to existing expressions and to statements before `i`.
pub open spec fn alts_ok(alts: Seq<(int, Seq<int>)>, i: int, ne: int) -> bool {
    forall|k: int| 0 <= k < alts.len() ==> 0 <= #[trigger] alts[k].0 < ne && ids_below(alts[k].1, i)
}

/// Statement `i` refers to existing expressions (of the first `ne`), and its
/// blocks only to statements before it.
pub open spec fn stmt_ok(s: StmtNode, i: int, ne: int) -> bool {
    match s {
        StmtNode::If { cond, block, alts, else_block } => {
            &&& 0 <= cond < ne
            &&& ids_below(block, i)
            &&& alts_ok(alts, i, ne)
            &&& (else_block matches Some(b) ==> ids_below(b, i))
        },
        StmtNode::VarDec { val, .. } => val matches Some(v) ==> 0 <= v < ne,
        StmtNode::Expr { expr } => 0 <= expr < ne,
        StmtNode::Assign { left, right, .. } => 0 <= left < ne && 0 <= right < ne,
        StmtNode::Return { expr } => 0 <= expr < ne,
    }
}

/// An item's body refers to existing statements (of the first `ns`).
pub open spec fn item_ok(it: ItemNode, ns: int) -> bool {
    match it {
        ItemNode::FnDec { body, .. } => body matches Some(b) ==> ids_below(b, ns),
        ItemNode::StructDec { .. } => true,
    }
}

/// Every node refers only to nodes that exist, and expressions and the
/// blocks of statements only to nodes before them.
pub open spec fn ordered(a: Ast) -> bool {
    &&& forall|i: int| 0 <= i < a.exprs.len() ==> expr_ok(#[trigger] a.exprs[i].0, i)
    &&& forall|i: int| 0 <= i < a.stmts.len() ==> stmt_ok(#[trigger] a.stmts[i].0, i, a.exprs.len() as int)
    &&& forall|i: int| 0 <= i < a.items.len() ==> item_ok(#[trigger] a.items[i].0, a.stmts.len() as int)
    &&& forall|i: int| 0 <= i < a.mods.len() ==> ids_below(#[trigger] a.mods[i].0, a.items.len() as int)
}

/// No arena of `b` is shorter than that of `a`.
pub open spec fn grows(a: Ast, b: Ast) -> bool {
    &&& a.exprs.len() <= b.exprs.len()
    &&& a.stmts.len() <= b.stmts.len()
    &&& a.items.len() <= b.items.len()
    &&& a.mods.len() <= b.mods.len()
}

pub proof fn lemma_ids_below_grow(ids: Seq<int>, n: int, m: int)
    requires
        ids_below(ids, n),
        n <= m,
    ensures
        ids_below(ids, m),
{
}

/// Every statement of `ids` exists (is one of the first `ns`) and ranks below `r`.
pub open spec fn block_ranked(ids: Seq<int>, r: int, sr: spec_fn(int) -> int, ns: int) -> bool {
    forall|k: int| 0 <= k < ids.len() ==> 0 <= #[trigger] ids[k] < ns && sr(ids[k]) < r
}

/// The conditions of `else if` parts exist (among the first `ne`
/// expressions), and their blocks are ranked below `r`.
pub open spec fn alts_ranked(alts: Seq<(int, Seq<int>)>, r: int, sr: spec_fn(int) -> int, ns: int, ne: int) -> bool {
    forall|k: int| 0 <= k < alts.len() ==> 0 <= #[trigger] alts[k].0 < ne && block_ranked(alts[k].1, r, sr, ns)
}

/// A block ranked below `r` is ranked below any `r2` above `r`.
pub proof fn lemma_block_ranked_grow(ids: Seq<int>, r: int, r2: int, sr: spec_fn(int) -> int, ns: int)
    requires
        block_ranked(ids, r, sr, ns),
        r <= r2,
    ensures
        block_ranked(ids, r2, sr, ns),
{
}

/// Else-if parts ranked below `r` are ranked below any `r2` above `r`.
pub proof fn lemma_alts_ranked_grow(alts: Seq<(int, Seq<int>)>, r: int, r2: int, sr: spec_fn(int) -> int, ns: int, ne: int)
    requires
        alts_ranked(alts, r, sr, ns, ne),
        r <= r2,
    ensures
        alts_ranked(alts, r2, sr, ns, ne),
{
    assert forall|k: int| 0 <= k < alts.len() implies 0 <= #[trigger] alts[k].0 < ne && block_ranked(alts[k].1, r2, sr, ns) by {
        assert(0 <= alts[k].0 < ne && block_ranked(alts[k].1, r, sr, ns));
    }
}

/// In a tree without cycles, every existing statement ranks below the
/// number of statements.
pub proof fn lemma_body_ranked(a: Ast, er: spec_fn(int) -> int, sr: spec_fn(int) -> int, b: Seq<int>)
    requires
        well_ranked(a, er, sr),
        ids_below(b, a.stmts.len() as int),
    ensures
        block_ranked(b, a.stmts.len() as int, sr, a.stmts.len() as int),
{
    assert forall|k: int| 0 <= k < b.len() implies 0 <= #[trigger] b[k] < a.stmts.len() && sr(b[k]) < a.stmts.len() by {
        assert(0 <= b[k] < a.stmts.len());
        let i = b[k];
        assert(stmt_ranked(a.stmts[i].0, sr(i), sr, a.stmts.len() as int, a.exprs.len() as int));
    }
}

/// The parts of expression node `e`, whose rank is `r`, exist (are among
/// the first `n`) and rank below it.
pub open spec fn expr_ranked(e: ExprNode, r: int, er: spec_fn(int) -> int, n: int) -> bool {
    match e {
        ExprNode::Binop { left, right, .. } => 0 <= left < n && 0 <= right < n && er(left) < r && er(right)
            < r,
        ExprNode::Symbol { .. } => true,
        ExprNode::Number { .. } => true,
        ExprNode::FnCall { target, args } => 0 <= target < n && er(target) < r && forall|k: int|
            0 <= k < args.len() ==> 0 <= #[trigger] args[k] < n && er(args[k]) < r,
        ExprNode::StructLit { fields, .. } => forall|k: int|
            0 <= k < fields.len() ==> 0 <= #[trigger] fields[k].1 < n && er(fields[k].1) < r,
        ExprNode::FieldAccess { target, .. } => 0 <= target < n && er(target) < r,
    }
}

/// The expressions that statement node `s` refers to exist (among the first
/// `ne`), and the statements of its blocks exist (among the first `ns`) and
/// rank below its rank `r`.
pub open spec fn stmt_ranked(s: StmtNode, r: int, sr: spec_fn(int) -> int, ns: int, ne: int) -> bool {
    match s {
        StmtNode::If { cond, block, alts, else_block } => {
            &&& 0 <= cond < ne
            &&& block_ranked(block, r, sr, ns)
            &&& alts_ranked(alts, r, sr, ns, ne)
            &&& (else_block matches Some(b) ==> block_ranked(b, r, sr, ns))
        },
        StmtNode::VarDec { val, .. } => val matches Some(v) ==> 0 <= v < ne,
        StmtNode::Expr { expr } => 0 <= expr < ne,
        StmtNode::Assign { left, right, .. } => 0 <= left < ne && 0 <= right < ne,
        StmtNode::Return { expr } => 0 <= expr < ne,
    }
}

/// The tree has no cycles: each expression has a rank `er` and each
/// statement a rank `sr`, below the number of expressions and of statements,
/// and the rank falls from every node to each of its parts; and every
/// reference names a node that exists.
pub open spec fn well_ranked(a: Ast, er: spec_fn(int) -> int, sr: spec_fn(int) -> int) -> bool {
    &&& forall|i: int|
        0 <= i < a.exprs.len() ==> 0 <= er(i) < a.exprs.len() && expr_ranked(
            #[trigger] a.exprs[i].0,
            er(i),
            er,
            a.exprs.len() as int,
        )
    &&& forall|i: int|
        0 <= i < a.stmts.len() ==> 0 <= sr(i) < a.stmts.len() && stmt_ranked(
            #[trigger] a.stmts[i].0,
            sr(i),
            sr,
            a.stmts.len() as int,
            a.exprs.len() as int,
        )
    &&& forall|i: int| 0 <= i < a.items.len() ==> item_ok(#[trigger] a.items[i].0, a.stmts.len() as int)
    &&& forall|i: int| 0 <= i < a.mods.len() ==> ids_below(#[trigger] a.mods[i].0, a.items.len() as int)
}

/// An ordered tree (each node's parts before it) has no cycles: a node's id
/// serves as its rank.
pub proof fn law_ordered_tree_is_acyclic(a: Ast)
    requires
        ordered(a),
    ensures
        well_ranked(a, |i: int| i, |i: int| i),
{
    let er = |i: int| i;
    assert forall|i: int| 0 <= i < a.exprs.len() implies 0 <= er(i) < a.exprs.len() && expr_ranked(
        #[trigger] a.exprs[i].0,
        er(i),
        er,
        a.exprs.len() as int,
    ) by {
        assert(expr_ok(a.exprs[i].0, i));
    }
    assert forall|i: int| 0 <= i < a.stmts.len() implies 0 <= er(i) < a.stmts.len() && stmt_ranked(
        #[trigger] a.stmts[i].0,
        er(i),
        er,
        a.stmts.len() as int,
        a.exprs.len() as int,
    ) by {
        assert(stmt_ok(a.stmts[i].0, i, a.exprs.len() as int));
        if let StmtNode::If { cond, block, alts, else_block } = a.stmts[i].0 {
            assert forall|k: int| 0 <= k < alts.len() implies 0 <= #[trigger] alts[k].0 < a.exprs.len()
                && block_ranked(alts[k].1, er(i), er, a.stmts.len() as int) by {
                assert(0 <= alts[k].0 < a.exprs.len() && ids_below(alts[k].1, i));
            }
        }
    }
}

proof fn lemma_ids_push(ids: Seq<int>, e: int, n: int)
    requires
        ids_below(ids, n),
        0 <= e < n,
    ensures
        ids_below(ids.push(e), n),
{
    assert forall|k: int| 0 <= k < ids.push(e).len() implies 0 <= #[trigger] ids.push(e)[k] < n by {
        if k < ids.len() {
            assert(ids.push(e)[k] == ids[k]);
        }
    }
}

proof fn lemma_with_expr(a: Ast, e: ExprNode, sp: Span)
    requires
        ordered(a),
        expr_ok(e, a.exprs.len() as int),
    ensures
        ordered(a.with_expr(e, sp)),
{
    let b = a.with_expr(e, sp);
    assert forall|i: int| 0 <= i < b.exprs.len() implies expr_ok(#[trigger] b.exprs[i].0, i) by {
        if i < a.exprs.len() {
            assert(b.exprs[i] == a.exprs[i]);
        }
    }
    assert forall|i: int| 0 <= i < b.stmts.len() implies stmt_ok(#[trigger] b.stmts[i].0, i, b.exprs.len() as int) by {
        assert(stmt_ok(a.stmts[i].0, i, a.exprs.len() as int));
        match a.stmts[i].0 {
            StmtNode::If { alts, .. } => {
                assert forall|k: int| 0 <= k < alts.len() implies 0 <= #[trigger] alts[k].0 < b.exprs.len()
                    && ids_below(alts[k].1, i) by {
                    assert(0 <= alts[k].0 < a.exprs.len() && ids_below(alts[k].1, i));
                }
            },
            _ => {},
        }
    }
}

proof fn lemma_with_stmt(a: Ast, s: StmtNode, sp: Span)
    requires
        ordered(a),
        stmt_ok(s, a.stmts.len() as int, a.exprs.len() as int),
    ensures
        ordered(a.with_stmt(s, sp)),
{
    let b = a.with_stmt(s, sp);
    assert forall|i: int| 0 <= i < b.stmts.len() implies stmt_ok(#[trigger] b.stmts[i].0, i, b.exprs.len() as int) by {
        if i < a.stmts.len() {
            assert(b.stmts[i] == a.stmts[i]);
        }
    }
    assert forall|i: int| 0 <= i < b.items.len() implies item_ok(#[trigger] b.items[i].0, b.stmts.len() as int) by {
        assert(item_ok(a.items[i].0, a.stmts.len() as int));
        if let ItemNode::FnDec { body: Some(bd), .. } = a.items[i].0 {
            lemma_ids_below_grow(bd, a.stmts.len() as int, b.stmts.len() as int);
        }
    }
}

proof fn lemma_with_item(a: Ast, it: ItemNode, sp: Span)
    requires
        ordered(a),
        item_ok(it, a.stmts.len() as int),
    ensures
        ordered(a.with_item(it, sp)),
{
    let b = a.with_item(it, sp);
    assert forall|i: int| 0 <= i < b.items.len() implies item_ok(#[trigger] b.items[i].0, b.stmts.len() as int) by {
        if i < a.items.len() {
            assert(b.items[i] == a.items[i]);
        }
    }
    assert forall|i: int| 0 <= i < b.mods.len() implies ids_below(#[trigger] b.mods[i].0, b.items.len() as int) by {
        lemma_ids_below_grow(a.mods[i].0, a.items.len() as int, b.items.len() as int);
    }
}

proof fn lemma_with_mod(a: Ast, m: Seq<int>, sp: Span)
    requires
        ordered(a),
        ids_below(m, a.items.len() as int),
    ensures
        ordered(a.with_mod(m, sp)),
{
    let b = a.with_mod(m, sp);
    assert forall|i: int| 0 <= i < b.mods.len() implies ids_below(#[trigger] b.mods[i].0, b.items.len() as int) by {
        if i < a.mods.len() {
            assert(b.mods[i] == a.mods[i]);
        }
    }
}

// ---------------------------------------------------------------------------
// Expressions
// ---------------------------------------------------------------------------

/// A read of an expression from `p` in `a`: the tree stays ordered, no
/// arena shrinks, at least one token is read, and the expression exists.
pub open spec fn expr_read(toks: Seq<TokenView>, p: int, a: Ast, r: Parsed<int>) -> bool {
    r matches Parsed::Read { value, pos, ast: b } ==> {
        &&& ordered(b)
        &&& grows(a, b)
        &&& p < pos <= toks.len()
        &&& 0 <= value < b.exprs.len()
    }
}

proof fn lemma_expr(toks: Seq<TokenView>, p: int, a: Ast, sl: bool)
    requires
        ordered(a),
        0 <= p <= toks.len(),
    ensures
        expr_read(toks, p, a, sp_expr(toks, p, a, sl)),
    decreases toks.len() - p, 4int,
{
    lemma_binop(toks, p, a, sl);
}

proof fn lemma_binop(toks: Seq<TokenView>, p: int, a: Ast, sl: bool)
    requires
        ordered(a),
        0 <= p <= toks.len(),
    ensures
        expr_read(toks, p, a, sp_binop(toks, p, a, sl)),
    decreases toks.len() - p, 3int,
{
    if let Ok(span) = sp_cur_span(toks, p) {
        lemma_postfix(toks, p, a, sl);
        if let Parsed::Read { value: lhs, pos: p1, ast: a1 } = sp_postfix(toks, p, a, sl) {
            if let Some(kind) = binop_kind_of(tok_at(toks, p1)) {
                assert(p1 < toks.len());
                lemma_expr(toks, p1 + 1, a1, sl);
                if let Parsed::Read { value: rhs, pos: p2, ast: a2 } = sp_expr(toks, p1 + 1, a1, sl) {
                    lemma_with_expr(a2, ExprNode::Binop { left: lhs, right: rhs, kind: kind }, span);
                }
            }
        }
    }
}

proof fn lemma_postfix(toks: Seq<TokenView>, p: int, a: Ast, sl: bool)
    requires
        ordered(a),
        0 <= p <= toks.len(),
    ensures
        expr_read(toks, p, a, sp_postfix(toks, p, a, sl)),
    decreases toks.len() - p, 2int,
{
    if let Ok(span) = sp_cur_span(toks, p) {
        lemma_primary(toks, p, a, sl);
        if let Parsed::Read { value: prim, pos: p1, ast: a1 } = sp_primary(toks, p, a, sl) {
            lemma_postfix_loop(toks, p1, a1, sl, prim, span);
        }
    }
}

proof fn lemma_postfix_loop(toks: Seq<TokenView>, p: int, a: Ast, sl: bool, target: int, span: Span)
    requires
        ordered(a),
        0 <= p <= toks.len(),
        0 <= target < a.exprs.len(),
    ensures
        sp_postfix_loop(toks, p, a, sl, target, span) matches Parsed::Read { value, pos, ast: b } ==> {
            &&& ordered(b)
            &&& grows(a, b)
            &&& p <= pos <= toks.len()
            &&& 0 <= value < b.exprs.len()
        },
    decreases toks.len() - p, 0int,
{
    let t = tok_at(toks, p);
    if sym(t) == Some(seq!['.']) {
        assert(p < toks.len());
        if let Ok((field, p2)) = sp_expect_ident(toks, p + 1) {
            lemma_with_expr(a, ExprNode::FieldAccess { target: target, field: field }, span);
        }
    } else if sym(t) == Some(seq!['(']) {
        assert(p < toks.len());
        let q = p + 1;
        if sym(tok_at(toks, q)) != Some(seq![')']) {
            lemma_args(toks, q, a, sl, seq![]);
        }
        let args: Parsed<Seq<int>> = if sym(tok_at(toks, q)) != Some(seq![')']) {
            sp_args(toks, q, a, sl, seq![])
        } else {
            Parsed::Read { value: seq![], pos: q, ast: a }
        };
        if let Parsed::Read { value: args, pos: q2, ast: a2 } = args {
            if let Ok(q3) = sp_expect(toks, q2, seq![')']) {
                assert(q2 < toks.len());
                let node = ExprNode::FnCall { target: target, args: args };
                lemma_with_expr(a2, node, span);
                let a3 = a2.with_expr(node, span);
                lemma_postfix_loop(toks, q3, a3, sl, a2.exprs.len() as int, span);
            }
        }
    }
}

proof fn lemma_args(toks: Seq<TokenView>, p: int, a: Ast, sl: bool, acc: Seq<int>)
    requires
        ordered(a),
        0 <= p <= toks.len(),
        ids_below(acc, a.exprs.len() as int),
    ensures
        sp_args(toks, p, a, sl, acc) matches Parsed::Read { value, pos, ast: b } ==> {
            &&& ordered(b)
            &&& grows(a, b)
            &&& p < pos <= toks.len()
            &&& ids_below(value, b.exprs.len() as int)
        },
    decreases toks.len() - p, 5int,
{
    lemma_expr(toks, p, a, sl);
    if let Parsed::Read { value: e, pos: p1, ast: a1 } = sp_expr(toks, p, a, sl) {
        lemma_ids_below_grow(acc, a.exprs.len() as int, a1.exprs.len() as int);
        lemma_ids_push(acc, e, a1.exprs.len() as int);
        if sym(tok_at(toks, p1)) == Some(seq![',']) {
            assert(p1 < toks.len());
            lemma_args(toks, p1 + 1, a1, sl, acc.push(e));
        }
    }
}

proof fn lemma_primary(toks: Seq<TokenView>, p: int, a: Ast, sl: bool)
    requires
        ordered(a),
        0 <= p <= toks.len(),
    ensures
        expr_read(toks, p, a, sp_primary(toks, p, a, sl)),
    decreases toks.len() - p, 1int,
{
    let t = tok_at(toks, p);
    if let Ok(span) = sp_cur_span(toks, p) {
        assert(p < toks.len());
        match t {
            TokenView::Ident(s, _) => {
                if sym(tok_at(toks, p + 1)) == Some(seq!['{']) && sl {
                    assert(p + 1 < toks.len());
                    lemma_fields(toks, p + 2, a, sl, seq![]);
                    if let Parsed::Read { value: fields, pos: p2, ast: a2 } = sp_fields(toks, p + 2, a, sl, seq![]) {
                        if let Ok(p3) = sp_expect(toks, p2, seq!['}']) {
                            assert(p2 < toks.len());
                            lemma_with_expr(a2, ExprNode::StructLit { ty: s, fields: fields }, span);
                        }
                    }
                } else {
                    lemma_with_expr(a, ExprNode::Symbol { name: s }, span);
                }
            },
            TokenView::Num(n, _) => {
                lemma_with_expr(a, ExprNode::Number { text: n }, span);
            },
            TokenView::Symbol(s, _) => {
                if s == seq!['('] {
                    lemma_expr(toks, p + 1, a, sl);
                    if let Parsed::Read { value: e, pos: p1, ast: a1 } = sp_expr(toks, p + 1, a, sl) {
                        if sym(tok_at(toks, p1)) == Some(seq![')']) {
                            assert(p1 < toks.len());
                        }
                    }
                }
            },
            _ => {},
        }
    }
}

proof fn lemma_fields(toks: Seq<TokenView>, p: int, a: Ast, sl: bool, acc: Seq<(Seq<char>, int)>)
    requires
        ordered(a),
        0 <= p <= toks.len(),
        forall|k: int| 0 <= k < acc.len() ==> 0 <= #[trigger] acc[k].1 < a.exprs.len(),
    ensures
        sp_fields(toks, p, a, sl, acc) matches Parsed::Read { value, pos, ast: b } ==> {
            &&& ordered(b)
            &&& grows(a, b)
            &&& p <= pos <= toks.len()
            &&& forall|k: int| 0 <= k < value.len() ==> 0 <= #[trigger] value[k].1 < b.exprs.len()
        },
    decreases toks.len() - p, 5int,
{
    if tok_at(toks, p) is Ident {
        if let Ok((name, p1)) = sp_expect_ident(toks, p) {
            if let Ok(p2) = sp_expect(toks, p1, seq!['=']) {
                assert(p1 < toks.len());
                lemma_expr(toks, p2, a, sl);
                if let Parsed::Read { value: e, pos: p3, ast: a3 } = sp_expr(toks, p2, a, sl) {
                    let acc2 = acc.push((name, e));
                    assert forall|k: int| 0 <= k < acc2.len() implies 0 <= #[trigger] acc2[k].1 < a3.exprs.len() by {
                        if k < acc.len() {
                            assert(acc2[k] == acc[k]);
                        }
                    }
                    if sym(tok_at(toks, p3)) == Some(seq![',']) {
                        assert(p3 < toks.len());
                        lemma_fields(toks, p3 + 1, a3, sl, acc2);
                    }
                }
            }
        }
    }
}


// ---------------------------------------------------------------------------
// Types and argument lists
// ---------------------------------------------------------------------------

proof fn lemma_type(toks: Seq<TokenView>, p: int)
    requires
        0 <= p <= toks.len(),
    ensures
        sp_type(toks, p) matches Ok((_, p1)) ==> p < p1 <= toks.len(),
    decreases toks.len() - p,
{
    match tok_at(toks, p) {
        TokenView::Symbol(s, _) => {
            if s == seq!['*'] {
                lemma_type(toks, p + 1);
            }
        },
        _ => {},
    }
}

proof fn lemma_fn_dec_args(toks: Seq<TokenView>, p: int, acc: Seq<(Seq<char>, crate::parser::TypeTree)>)
    requires
        0 <= p <= toks.len(),
    ensures
        sp_fn_dec_args(toks, p, acc) matches Ok((_, p1)) ==> p < p1 <= toks.len(),
    decreases toks.len() - p,
{
    if let Ok((name, p1)) = sp_expect_ident(toks, p) {
        if let Ok(p2) = sp_expect(toks, p1, seq![':']) {
            assert(p1 < toks.len());
            lemma_type(toks, p2);
            if let Ok((t, p3)) = sp_type(toks, p2) {
                if sym(tok_at(toks, p3)) == Some(seq![',']) {
                    assert(p3 < toks.len());
                    lemma_fn_dec_args(toks, p3 + 1, acc.push((name, t)));
                }
            }
        }
    }
}

proof fn lemma_struct_fields(toks: Seq<TokenView>, p: int, acc: Seq<(Seq<char>, crate::parser::TypeTree)>)
    requires
        0 <= p <= toks.len(),
    ensures
        sp_struct_fields(toks, p, acc) matches Ok((_, p1)) ==> p <= p1 <= toks.len(),
    decreases toks.len() - p,
{
    if sym(tok_at(toks, p)) != Some(seq!['}']) {
        if let Ok((name, p1)) = sp_expect_ident(toks, p) {
            if let Ok(p2) = sp_expect(toks, p1, seq![':']) {
                assert(p1 < toks.len());
                lemma_type(toks, p2);
                if let Ok((t, p3)) = sp_type(toks, p2) {
                    let p4 = if sym(tok_at(toks, p3)) == Some(seq![',']) {
                        p3 + 1
                    } else {
                        p3
                    };
                    if sym(tok_at(toks, p3)) == Some(seq![',']) {
                        assert(p3 < toks.len());
                    }
                    lemma_struct_fields(toks, p4, acc.push((name, t)));
                }
            }
        }
    }
}

// ---------------------------------------------------------------------------
// Statements
// ---------------------------------------------------------------------------

/// A read of a statement from `p` in `a`: the tree stays ordered, no arena
/// shrinks, at least one token is read, and the statement exists.
pub open spec fn stmt_read(toks: Seq<TokenView>, p: int, a: Ast, r: Parsed<int>) -> bool {
    r matches Parsed::Read { value, pos, ast: b } ==> {
        &&& ordered(b)
        &&& grows(a, b)
        &&& p < pos <= toks.len()
        &&& 0 <= value < b.stmts.len()
    }
}

/// A read of a block from `p` in `a`: the tree stays ordered, no arena
/// shrinks, at least one token is read, and the statements exist.
pub open spec fn block_read(toks: Seq<TokenView>, p: int, a: Ast, r: Parsed<Seq<int>>) -> bool {
    r matches Parsed::Read { value, pos, ast: b } ==> {
        &&& ordered(b)
        &&& grows(a, b)
        &&& p < pos <= toks.len()
        &&& ids_below(value, b.stmts.len() as int)
    }
}

proof fn lemma_return(toks: Seq<TokenView>, p: int, a: Ast, sl: bool)
    requires
        ordered(a),
        0 <= p <= toks.len(),
    ensures
        stmt_read(toks, p, a, sp_return(toks, p, a, sl)),
{
    if let Ok(span) = sp_cur_span(toks, p) {
        if let Ok(p1) = sp_expect_kw(toks, p, Keyword::Return) {
            lemma_expr(toks, p1, a, sl);
            if let Parsed::Read { value: e, pos: p2, ast: a2 } = sp_expr(toks, p1, a, sl) {
                if let Ok(p3) = sp_expect(toks, p2, seq![';']) {
                    assert(p2 < toks.len());
                    lemma_with_stmt(a2, StmtNode::Return { expr: e }, span);
                }
            }
        }
    }
}

proof fn lemma_vardec(toks: Seq<TokenView>, p: int, a: Ast, sl: bool)
    requires
        ordered(a),
        0 <= p <= toks.len(),
    ensures
        stmt_read(toks, p, a, sp_vardec(toks, p, a, sl)),
{
    if let Ok(span) = sp_cur_span(toks, p) {
        if let Ok((name, p1)) = sp_expect_ident(toks, p) {
            match tok_at(toks, p1) {
                TokenView::Symbol(s, _) => {
                    assert(p1 < toks.len());
                    if s == seq![':', '='] {
                        lemma_expr(toks, p1 + 1, a, sl);
                        if let Parsed::Read { value: rhs, pos: p2, ast: a2 } = sp_expr(toks, p1 + 1, a, sl) {
                            lemma_with_stmt(a2, StmtNode::VarDec { name: name, ty: None, val: Some(rhs) }, span);
                        }
                    } else if s == seq![':'] {
                        lemma_type(toks, p1 + 1);
                        if let Ok((t, p2)) = sp_type(toks, p1 + 1) {
                            if sym(tok_at(toks, p2)) == Some(seq!['=']) {
                                assert(p2 < toks.len());
                                lemma_expr(toks, p2 + 1, a, sl);
                                if let Parsed::Read { value: rhs, pos: p3, ast: a3 } = sp_expr(toks, p2 + 1, a, sl) {
                                    lemma_with_stmt(
                                        a3,
                                        StmtNode::VarDec { name: name, ty: Some(t), val: Some(rhs) },
                                        span,
                                    );
                                }
                            }
                        }
                    }
                },
                _ => {},
            }
        }
    }
}

proof fn lemma_expr_stmt(toks: Seq<TokenView>, p: int, a: Ast, sl: bool)
    requires
        ordered(a),
        0 <= p <= toks.len(),
    ensures
        stmt_read(toks, p, a, sp_expr_stmt(toks, p, a, sl)),
{
    if let Ok(span) = sp_cur_span(toks, p) {
        if tok_at(toks, p) is Ident && (match peek_at(toks, p) {
            TokenView::Symbol(s, _) => is_vardec_text(s),
            _ => false,
        }) {
            lemma_vardec(toks, p, a, sl);
            if let Parsed::Read { value: id, pos: p1, ast: a1 } = sp_vardec(toks, p, a, sl) {
                if let Ok(p2) = sp_expect(toks, p1, seq![';']) {
                    assert(p1 < toks.len());
                }
            }
        } else {
            lemma_expr(toks, p, a, sl);
            if let Parsed::Read { value: e, pos: p1, ast: a1 } = sp_expr(toks, p, a, sl) {
                match assignment_kind_of(tok_at(toks, p1)) {
                    Some(kind) => {
                        assert(p1 < toks.len());
                        lemma_expr(toks, p1 + 1, a1, sl);
                        if let Parsed::Read { value: r, pos: p2, ast: a2 } = sp_expr(toks, p1 + 1, a1, sl) {
                            if let Ok(p3) = sp_expect(toks, p2, seq![';']) {
                                assert(p2 < toks.len());
                                lemma_with_stmt(a2, StmtNode::Assign { left: e, right: r, kind: kind }, span);
                            }
                        }
                    },
                    None => {
                        if let Ok(p2) = sp_expect(toks, p1, seq![';']) {
                            assert(p1 < toks.len());
                            lemma_with_stmt(a1, StmtNode::Expr { expr: e }, span);
                        }
                    },
                }
            }
        }
    }
}

proof fn lemma_stmt(toks: Seq<TokenView>, p: int, a: Ast, sl: bool)
    requires
        ordered(a),
        0 <= p <= toks.len(),
    ensures
        stmt_read(toks, p, a, sp_stmt(toks, p, a, sl)),
    decreases toks.len() - p, 2int,
{
    let t = tok_at(toks, p);
    if is_kw_tok(t, Keyword::If) {
        lemma_if_stmt(toks, p, a, sl);
    } else if is_kw_tok(t, Keyword::Return) {
        lemma_return(toks, p, a, sl);
    } else {
        lemma_expr_stmt(toks, p, a, sl);
    }
}

proof fn lemma_block(toks: Seq<TokenView>, p: int, a: Ast, sl: bool)
    requires
        ordered(a),
        0 <= p <= toks.len(),
    ensures
        block_read(toks, p, a, sp_block(toks, p, a, sl)),
    decreases toks.len() - p, 1int,
{
    if let Ok(p1) = sp_expect(toks, p, seq!['{']) {
        assert(p < toks.len());
        lemma_stmts(toks, p1, a, sl, seq![]);
        if let Parsed::Read { value: stmts, pos: p2, ast: a2 } = sp_stmts(toks, p1, a, sl, seq![]) {
            if let Ok(p3) = sp_expect(toks, p2, seq!['}']) {
                assert(p2 < toks.len());
            }
        }
    }
}

proof fn lemma_stmts(toks: Seq<TokenView>, p: int, a: Ast, sl: bool, acc: Seq<int>)
    requires
        ordered(a),
        0 <= p <= toks.len(),
        ids_below(acc, a.stmts.len() as int),
    ensures
        sp_stmts(toks, p, a, sl, acc) matches Parsed::Read { value, pos, ast: b } ==> {
            &&& ordered(b)
            &&& grows(a, b)
            &&& p <= pos <= toks.len()
            &&& ids_below(value, b.stmts.len() as int)
        },
    decreases toks.len() - p, 3int,
{
    if sym(tok_at(toks, p)) != Some(seq!['}']) {
        lemma_stmt(toks, p, a, sl);
        if let Parsed::Read { value: s, pos: p1, ast: a1 } = sp_stmt(toks, p, a, sl) {
            lemma_ids_below_grow(acc, a.stmts.len() as int, a1.stmts.len() as int);
            lemma_ids_push(acc, s, a1.stmts.len() as int);
            lemma_stmts(toks, p1, a1, sl, acc.push(s));
        }
    }
}

proof fn lemma_alts(toks: Seq<TokenView>, p: int, a: Ast, sl: bool, acc: Seq<(int, Seq<int>)>)
    requires
        ordered(a),
        0 <= p <= toks.len(),
        alts_ok(acc, a.stmts.len() as int, a.exprs.len() as int),
    ensures
        sp_alts(toks, p, a, sl, acc) matches Parsed::Read { value, pos, ast: b } ==> {
            &&& ordered(b)
            &&& grows(a, b)
            &&& p <= pos <= toks.len()
            &&& alts_ok(value, b.stmts.len() as int, b.exprs.len() as int)
        },
    decreases toks.len() - p, 3int,
{
    if is_kw_tok(tok_at(toks, p), Keyword::Else) && is_kw_tok(peek_at(toks, p), Keyword::If) {
        assert(p + 1 < toks.len());
        lemma_expr(toks, p + 2, a, false);
        if let Parsed::Read { value: c, pos: p1, ast: a1 } = sp_if_condition(toks, p + 2, a) {
            lemma_block(toks, p1, a1, sl);
            if let Parsed::Read { value: b, pos: p2, ast: a2 } = sp_block(toks, p1, a1, sl) {
                let acc2 = acc.push((c, b));
                assert forall|k: int| 0 <= k < acc2.len() implies 0 <= #[trigger] acc2[k].0 < a2.exprs.len()
                    && ids_below(acc2[k].1, a2.stmts.len() as int) by {
                    if k < acc.len() {
                        assert(acc2[k] == acc[k]);
                        assert(0 <= acc[k].0 < a.exprs.len());
                        lemma_ids_below_grow(acc[k].1, a.stmts.len() as int, a2.stmts.len() as int);
                    }
                }
                lemma_alts(toks, p2, a2, sl, acc2);
            }
        }
    }
}

proof fn lemma_if_stmt(toks: Seq<TokenView>, p: int, a: Ast, sl: bool)
    requires
        ordered(a),
        0 <= p <= toks.len(),
    ensures
        stmt_read(toks, p, a, sp_if_stmt(toks, p, a, sl)),
    decreases toks.len() - p, 1int,
{
    if let Ok(p1) = sp_expect_kw(toks, p, Keyword::If) {
        assert(p < toks.len());
        if let Ok(span) = sp_prev_span(toks, p1) {
            lemma_expr(toks, p1, a, false);
            if let Parsed::Read { value: cond, pos: p2, ast: a2 } = sp_if_condition(toks, p1, a) {
                lemma_block(toks, p2, a2, sl);
                if let Parsed::Read { value: body, pos: p3, ast: a3 } = sp_block(toks, p2, a2, sl) {
                    lemma_alts(toks, p3, a3, sl, seq![]);
                    if let Parsed::Read { value: alts, pos: p4, ast: a4 } = sp_alts(toks, p3, a3, sl, seq![]) {
                        lemma_if_tail(toks, p, p4, a4, sl, cond, body, alts, span, a3.stmts.len() as int);
                    }
                }
            }
        }
    }
}

/// The `else` part of an `if`, and the `if` node itself.
proof fn lemma_if_tail(
    toks: Seq<TokenView>,
    p: int,
    p4: int,
    a4: Ast,
    sl: bool,
    cond: int,
    body: Seq<int>,
    alts: Seq<(int, Seq<int>)>,
    span: Span,
    n3: int,
)
    requires
        ordered(a4),
        p < p4 <= toks.len(),
        0 <= cond < a4.exprs.len(),
        n3 <= a4.stmts.len(),
        ids_below(body, n3),
        alts_ok(alts, a4.stmts.len() as int, a4.exprs.len() as int),
    ensures
        ({
            let els: Parsed<Option<Seq<int>>> = if is_kw_tok(tok_at(toks, p4), Keyword::Else) {
                match sp_block(toks, p4 + 1, a4, sl) {
                    Parsed::Failed(f) => Parsed::Failed(f),
                    Parsed::Read { value: b, pos: p5, ast: a5 } => Parsed::Read { value: Some(b), pos: p5, ast: a5 },
                }
            } else {
                Parsed::Read { value: None, pos: p4, ast: a4 }
            };
            els matches Parsed::Read { value: else_block, pos: p5, ast: a5 } ==> {
                &&& ordered(a5.with_stmt(
                    StmtNode::If { cond: cond, block: body, alts: alts, else_block: else_block },
                    span,
                ))
                &&& grows(a4, a5)
                &&& p < p5 <= toks.len()
            }
        }),
    decreases toks.len() - p, 0int,
{
    if is_kw_tok(tok_at(toks, p4), Keyword::Else) {
        assert(p4 < toks.len());
        lemma_block(toks, p4 + 1, a4, sl);
    }
    let els: Parsed<Option<Seq<int>>> = if is_kw_tok(tok_at(toks, p4), Keyword::Else) {
        match sp_block(toks, p4 + 1, a4, sl) {
            Parsed::Failed(f) => Parsed::Failed(f),
            Parsed::Read { value: b, pos: p5, ast: a5 } => Parsed::Read { value: Some(b), pos: p5, ast: a5 },
        }
    } else {
        Parsed::Read { value: None, pos: p4, ast: a4 }
    };
    if let Parsed::Read { value: else_block, pos: p5, ast: a5 } = els {
        let n = a5.stmts.len() as int;
        lemma_ids_below_grow(body, n3, n);
        assert forall|k: int| 0 <= k < alts.len() implies 0 <= #[trigger] alts[k].0 < a5.exprs.len()
            && ids_below(alts[k].1, n) by {
            assert(0 <= alts[k].0 < a4.exprs.len());
            lemma_ids_below_grow(alts[k].1, a4.stmts.len() as int, n);
        }
        lemma_with_stmt(
            a5,
            StmtNode::If { cond: cond, block: body, alts: alts, else_block: else_block },
            span,
        );
    }
}

// ---------------------------------------------------------------------------
// Declarations and modules
// ---------------------------------------------------------------------------

/// A read of a declaration from `p` in `a`: the tree stays ordered, no arena
/// shrinks, at least one token is read, and the item exists.
pub open spec fn item_read(toks: Seq<TokenView>, p: int, a: Ast, r: Parsed<int>) -> bool {
    r matches Parsed::Read { value, pos, ast: b } ==> {
        &&& ordered(b)
        &&& grows(a, b)
        &&& p < pos <= toks.len()
        &&& 0 <= value < b.items.len()
    }
}

proof fn lemma_fn_dec(toks: Seq<TokenView>, p: int, a: Ast, sl: bool)
    requires
        ordered(a),
        0 <= p <= toks.len(),
    ensures
        item_read(toks, p, a, sp_fn_dec(toks, p, a, sl)),
{
    if let Ok(p1) = sp_expect_kw(toks, p, Keyword::Fn) {
        assert(p < toks.len());
        if let Ok(span) = sp_prev_span(toks, p1) {
            if let Ok((name, p2)) = sp_expect_ident(toks, p1) {
                if let Ok(p3) = sp_expect(toks, p2, seq!['(']) {
                    assert(p2 < toks.len());
                    if sym(tok_at(toks, p3)) != Some(seq![')']) {
                        lemma_fn_dec_args(toks, p3, seq![]);
                    }
                    let args = if sym(tok_at(toks, p3)) == Some(seq![')']) {
                        Ok((seq![], p3))
                    } else {
                        sp_fn_dec_args(toks, p3, seq![])
                    };
                    if let Ok((args, p4)) = args {
                        if let Ok(p5) = sp_expect(toks, p4, seq![')']) {
                            assert(p4 < toks.len());
                            if sym(tok_at(toks, p5)) == Some(seq![':']) {
                                assert(p5 < toks.len());
                                lemma_type(toks, p5 + 1);
                            }
                            let ret = if sym(tok_at(toks, p5)) == Some(seq![':']) {
                                match sp_type(toks, p5 + 1) {
                                    Err(f) => Err(f),
                                    Ok((t, q)) => Ok((Some(t), q)),
                                }
                            } else {
                                Ok((None, p5))
                            };
                            if let Ok((ret, p6)) = ret {
                                if sym(tok_at(toks, p6)) == Some(seq!['{']) {
                                    lemma_block(toks, p6, a, sl);
                                    if let Parsed::Read { value: b, pos: p7, ast: a7 } = sp_block(toks, p6, a, sl) {
                                        lemma_with_item(
                                            a7,
                                            ItemNode::FnDec { name: name, args: args, ret: ret, body: Some(b) },
                                            span,
                                        );
                                    }
                                }
                            }
                        }
                    }
                }
            }
        }
    }
}

proof fn lemma_struct_dec(toks: Seq<TokenView>, p: int, a: Ast)
    requires
        ordered(a),
        0 <= p <= toks.len(),
    ensures
        item_read(toks, p, a, sp_struct_dec(toks, p, a)),
{
    if let Ok(span) = sp_cur_span(toks, p) {
        if let Ok(p1) = sp_expect_kw(toks, p, Keyword::Struct) {
            if let Ok((name, p2)) = sp_expect_ident(toks, p1) {
                if let Ok(p3) = sp_expect(toks, p2, seq!['{']) {
                    assert(p2 < toks.len());
                    lemma_struct_fields(toks, p3, seq![]);
                    if let Ok((fields, p4)) = sp_struct_fields(toks, p3, seq![]) {
                        if let Ok(p5) = sp_expect(toks, p4, seq!['}']) {
                            assert(p4 < toks.len());
                            lemma_with_item(a, ItemNode::StructDec { name: name, fields: fields }, span);
                        }
                    }
                }
            }
        }
    }
}

proof fn lemma_module_items(toks: Seq<TokenView>, p: int, a: Ast, acc: Seq<int>)
    requires
        ordered(a),
        0 <= p <= toks.len(),
        ids_below(acc, a.items.len() as int),
    ensures
        sp_module_items(toks, p, a, acc) matches Parsed::Read { value, pos, ast: b } ==> {
            &&& ordered(b)
            &&& grows(a, b)
            &&& ids_below(value, b.items.len() as int)
        },
    decreases toks.len() - p,
{
    match tok_at(toks, p) {
        TokenView::Keyword(kw, _) => {
            if kw == Keyword::Fn || kw == Keyword::Struct {
                if kw == Keyword::Fn {
                    lemma_fn_dec(toks, p, a, true);
                } else {
                    lemma_struct_dec(toks, p, a);
                }
                let d = if kw == Keyword::Fn {
                    sp_fn_dec(toks, p, a, true)
                } else {
                    sp_struct_dec(toks, p, a)
                };
                if let Parsed::Read { value: id, pos: p1, ast: a1 } = d {
                    lemma_ids_below_grow(acc, a.items.len() as int, a1.items.len() as int);
                    lemma_ids_push(acc, id, a1.items.len() as int);
                    lemma_module_items(toks, p1, a1, acc.push(id));
                }
            }
        },
        _ => {},
    }
}

/// Parsing adds only nodes that refer to nodes that exist, and each
/// expression's operands, callee, arguments and fields, and each
/// statement's blocks, come before it: a tree so ordered stays so, and the
/// module read is one of its modules. Walking such a tree from a node to
/// its parts always ends.
pub proof fn law_parsed_tree_is_ordered(toks: Seq<TokenView>, p: int, a: Ast)
    requires
        ordered(a),
        0 <= p <= toks.len(),
    ensures
        sp_module(toks, p, a) matches Parsed::Read { value, ast: b, .. } ==> ordered(b) && 0 <= value
            < b.mods.len(),
{
    if let Ok(span) = sp_cur_span(toks, p) {
        lemma_module_items(toks, p, a, seq![]);
        if let Parsed::Read { value: items, pos: p1, ast: a1 } = sp_module_items(toks, p, a, seq![]) {
            lemma_with_mod(a1, items, span);
        }
    }
}

/// A context's first syntax tree, with no nodes, is ordered.
pub proof fn law_empty_tree_is_ordered()
    ensures
        ordered(Ast { exprs: seq![], stmts: seq![], items: seq![], mods: seq![] }),
{
}

} // verus!
