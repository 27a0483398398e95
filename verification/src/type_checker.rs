use vstd::prelude::*;

use crate::ordering::{
    alts_ranked, block_ranked, ids_below, lemma_alts_ranked_grow, lemma_block_ranked_grow, lemma_body_ranked,
    stmt_ranked, well_ranked,
};
use crate::parser::{self, Ast, ExprNode, ItemNode, StmtNode};
use crate::resolver::{intern_spec, Context, ContextRest};
use crate::symbols::{
    self,
    type_debug,
    type_id_debug,
    type_is_float,
    type_is_integer,
    type_is_numeric,
    type_is_untyped,
    types_grown,
    ObjectId,
    ObjectView,
    Type,
    TypeId,
    TypeView,
};
use crate::text::{contains_char, decimal, push_decimal, push_str};

verus! {

broadcast use {vstd::std_specs::hash::group_hash_axioms, crate::parser::group_id_bounds};

// ---------------------------------------------------------------------------
// Failures
// ---------------------------------------------------------------------------

/// The inputs on which type checking cannot go on at all.
#[derive(Clone, Copy, PartialEq, Eq, Structural)]
pub enum TypeCheckFault {
    /// A node id that names no node.
    MissingNode,
    /// A node that contains itself: the tree has a cycle.
    MalformedTree,
    /// A type id that names no type.
    MissingType,
    /// An object id that names no object.
    MissingObject,
    /// A name, declaration or item that resolution did not record.
    MissingRef,
    /// A struct literal or a field access.
    UnsupportedExpression,
    /// A struct declaration.
    UnsupportedItem,
    /// Two different types that are not both numeric.
    UnsupportedTypes,
    /// A condition whose type is not numeric.
    NotCondition,
    /// A call of a function without a return type.
    NoReturnType,
    /// A function declaration without a body.
    MissingBody,
    /// A function whose object has no type.
    UntypedFunction,
    /// A function whose object's type is not a function type.
    NotFunctionType,
}

/// Why type checking stopped: a type error, or an input on which it cannot go on.
pub enum TypeCheckFailure {
    Error(String),
    Fault(TypeCheckFault),
}

pub enum TypeCheckFailureView {
    Error(Seq<char>),
    Fault(TypeCheckFault),
}

impl View for TypeCheckFailure {
    type V = TypeCheckFailureView;

    open spec fn view(&self) -> TypeCheckFailureView {
        match self {
            TypeCheckFailure::Error(m) => TypeCheckFailureView::Error(m@),
            TypeCheckFailure::Fault(f) => TypeCheckFailureView::Fault(*f),
        }
    }
}

pub open spec fn tfault<T>(f: TypeCheckFault) -> Result<T, TypeCheckFailureView> {
    Err(TypeCheckFailureView::Fault(f))
}

pub open spec fn terr<T>(m: Seq<char>) -> Result<T, TypeCheckFailureView> {
    Err(TypeCheckFailureView::Error(m))
}

// ---------------------------------------------------------------------------
// Reducing two types to one
// ---------------------------------------------------------------------------

/// The type with id `id`, if there is one.
pub open spec fn type_in(ts: Seq<TypeView>, id: TypeId) -> Option<TypeView> {
    if id.0 < ts.len() {
        Some(ts[id.0 as int])
    } else {
        None
    }
}

/// An untyped (literal) numeric type meets a typed one: the typed one wins,
/// but a float literal does not become an integer.
pub open spec fn reduce_untyped(ts: Seq<TypeView>, untyped: TypeId, typed: TypeId) -> Result<
    TypeId,
    TypeCheckFailureView,
> {
    match (type_in(ts, untyped), type_in(ts, typed)) {
        (Some(u), Some(t)) => if type_is_float(t) {
            Ok(typed)
        } else if type_is_integer(t) {
            if type_is_float(u) {
                terr("Right type is an int but left is a float lit"@)
            } else {
                Ok(typed)
            }
        } else {
            tfault(TypeCheckFault::UnsupportedTypes)
        },
        _ => tfault(TypeCheckFault::MissingType),
    }
}

/// Two numeric types meet: a typed one wins over a literal; of two literals
/// the float one wins; two typed ones must be the same.
pub open spec fn reduce_numerics(ts: Seq<TypeView>, left: TypeId, right: TypeId) -> Result<
    TypeId,
    TypeCheckFailureView,
> {
    match (type_in(ts, left), type_in(ts, right)) {
        (Some(l), Some(r)) => if !type_is_numeric(l) || !type_is_numeric(r) {
            tfault(TypeCheckFault::UnsupportedTypes)
        } else if type_is_untyped(l) && !type_is_untyped(r) {
            reduce_untyped(ts, left, right)
        } else if !type_is_untyped(l) && type_is_untyped(r) {
            reduce_untyped(ts, right, left)
        } else if type_is_untyped(l) && type_is_untyped(r) {
            if type_is_float(l) {
                Ok(left)
            } else {
                Ok(right)
            }
        } else if left == right {
            Ok(left)
        } else {
            terr("types don't match"@)
        },
        _ => tfault(TypeCheckFault::MissingType),
    }
}

/// The type that two types meeting (the two sides of an operator, a value
/// and its destination) come to.
pub open spec fn reduce_types(ts: Seq<TypeView>, left: TypeId, right: TypeId) -> Result<
    TypeId,
    TypeCheckFailureView,
> {
    if left == right {
        Ok(left)
    } else {
        match (type_in(ts, left), type_in(ts, right)) {
            (Some(l), Some(r)) => if type_is_numeric(l) && type_is_numeric(r) {
                reduce_numerics(ts, left, right)
            } else {
                tfault(TypeCheckFault::UnsupportedTypes)
            },
            _ => tfault(TypeCheckFault::MissingType),
        }
    }
}

/// Two types always come to one of the two.
pub proof fn law_reduce_gives_an_argument(ts: Seq<TypeView>, left: TypeId, right: TypeId)
    ensures
        reduce_types(ts, left, right) matches Ok(t) ==> t == left || t == right,
{
}

/// Where the types are all different, the type two types come to, or why
/// they cannot meet, does not depend on their order.
pub proof fn law_reduce_symmetric(ts: Seq<TypeView>, left: TypeId, right: TypeId)
    requires
        ts.no_duplicates(),
    ensures
        reduce_types(ts, left, right) == reduce_types(ts, right, left),
{
    if left != right && left.0 < ts.len() && right.0 < ts.len() {
        assert(ts[left.0 as int] != ts[right.0 as int]);
    }
}

/// When either side has a concrete type, so does what they come to: only two
/// literal types come to a literal type.
pub proof fn law_reduce_concrete_wins(ts: Seq<TypeView>, left: TypeId, right: TypeId)
    requires
        left.0 < ts.len(),
        right.0 < ts.len(),
    ensures
        reduce_types(ts, left, right) matches Ok(t) ==> {
            &&& t.0 < ts.len()
            &&& (type_is_untyped(ts[t.0 as int]) ==> type_is_untyped(ts[left.0 as int])
                && type_is_untyped(ts[right.0 as int]))
        },
{
}

// ---------------------------------------------------------------------------
// Type checking, as a function of the syntax tree and the context
// ---------------------------------------------------------------------------

pub open spec fn with_expr_ty(rest: ContextRest, e: int, ty: TypeId) -> ContextRest {
    ContextRest { expr_ty_refs: rest.expr_ty_refs.insert(e as usize, ty), ..rest }
}

/// Gives the type `ty` to the literals of expression `e`, and to its
/// operators whose type is still a literal's. `fuel` bounds how deep the
/// walk down the tree may go: an expression that contains itself runs out
/// of it (`MalformedTree`), while in a tree without cycles the depth stays
/// below the number of expressions, the fuel each walk starts with.
pub open spec fn tc_propagate(ast: Ast, rest: ContextRest, e: int, ty: TypeId, fuel: nat) -> Result<
    ContextRest,
    TypeCheckFailureView,
>
    decreases fuel,
{
    if type_in(rest.types, ty) is None {
        tfault(TypeCheckFault::MissingType)
    } else if !(0 <= e < ast.exprs.len()) {
        tfault(TypeCheckFault::MissingNode)
    } else if fuel == 0 {
        tfault(TypeCheckFault::MalformedTree)
    } else {
        match ast.exprs[e].0 {
            ExprNode::Number { .. } => Ok(with_expr_ty(rest, e, ty)),
            ExprNode::Symbol { .. } => Ok(rest),
            ExprNode::Binop { left, right, .. } => if !rest.expr_ty_refs.contains_key(e as usize) {
                tfault(TypeCheckFault::MissingRef)
            } else {
                match type_in(rest.types, rest.expr_ty_refs[e as usize]) {
                    None => tfault(TypeCheckFault::MissingType),
                    Some(current) => {
                        let rest1 = if type_is_untyped(current) {
                            with_expr_ty(rest, e, ty)
                        } else {
                            rest
                        };
                        match tc_propagate(ast, rest1, left, ty, (fuel - 1) as nat) {
                            Err(f) => Err(f),
                            Ok(rest2) => tc_propagate(ast, rest2, right, ty, (fuel - 1) as nat),
                        }
                    },
                }
            },
            ExprNode::FnCall { .. } => Ok(rest),
            _ => tfault(TypeCheckFault::UnsupportedExpression),
        }
    }
}

/// Gives the type `ty` to the literals of expression `e`, a whole walk.
pub open spec fn tc_give(ast: Ast, rest: ContextRest, e: int, ty: TypeId) -> Result<
    ContextRest,
    TypeCheckFailureView,
> {
    tc_propagate(ast, rest, e, ty, ast.exprs.len())
}

/// Checks expression `e` and gives its type, going at most `fuel` levels
/// down the tree.
pub open spec fn tc_expr(ast: Ast, rest: ContextRest, e: int, fuel: nat) -> Result<
    (TypeId, ContextRest),
    TypeCheckFailureView,
>
    decreases fuel, 0int, 0int,
{
    if !(0 <= e < ast.exprs.len()) {
        tfault(TypeCheckFault::MissingNode)
    } else if fuel == 0 {
        tfault(TypeCheckFault::MalformedTree)
    } else {
        match ast.exprs[e].0 {
            ExprNode::Binop { left, right, .. } => match tc_binop(ast, rest, e, left, right, (fuel - 1) as nat) {
                Err(f) => Err(f),
                Ok((t, rest1)) => Ok((t, with_expr_ty(rest1, e, t))),
            },
            ExprNode::Number { text } => {
                let lit = if text.contains('.') {
                    TypeView::FloatLiteral
                } else {
                    TypeView::IntLiteral
                };
                let (i, ts) = intern_spec(rest.types, lit);
                let id = TypeId(i as usize);
                Ok((id, with_expr_ty(ContextRest { types: ts, ..rest }, e, id)))
            },
            ExprNode::Symbol { .. } => if !rest.expr_refs.contains_key(e as usize) {
                tfault(TypeCheckFault::MissingRef)
            } else {
                let o = rest.expr_refs[e as usize];
                if o.0 >= rest.objects.len() {
                    tfault(TypeCheckFault::MissingObject)
                } else {
                    match rest.objects[o.0 as int].ty {
                        None => terr("No type in object"@),
                        Some(ty) => Ok((ty, with_expr_ty(rest, e, ty))),
                    }
                }
            },
            ExprNode::FnCall { target, args } => match tc_expr(ast, rest, target, (fuel - 1) as nat) {
                Err(f) => Err(f),
                Ok((tid, rest1)) => match type_in(rest1.types, tid) {
                    None => tfault(TypeCheckFault::MissingType),
                    Some(TypeView::Function(f)) => if f.args.len() != args.len() {
                        terr(
                            "fn call args don't match expected args: "@ + decimal(f.args.len()) + ":"@
                                + decimal(args.len()),
                        )
                    } else {
                        match tc_args(ast, rest1, f.args, args, 0, (fuel - 1) as nat) {
                            Err(x) => Err(x),
                            Ok(rest2) => match f.ret_ty {
                                Some(r) => Ok((r, with_expr_ty(rest2, e, r))),
                                None => tfault(TypeCheckFault::NoReturnType),
                            },
                        }
                    },
                    Some(_) => terr("Type is not a function"@),
                },
            },
            _ => tfault(TypeCheckFault::UnsupportedExpression),
        }
    }
}

/// Checks expression `e` and gives its type, a whole walk.
pub open spec fn tc_check(ast: Ast, rest: ContextRest, e: int) -> Result<
    (TypeId, ContextRest),
    TypeCheckFailureView,
> {
    tc_expr(ast, rest, e, ast.exprs.len())
}

/// Checks a binary operation `e`: both sides, that each can be an operand,
/// and the type they come to, which is given to the operation and its operands.
pub open spec fn tc_binop(ast: Ast, rest: ContextRest, e: int, left: int, right: int, fuel: nat) -> Result<
    (TypeId, ContextRest),
    TypeCheckFailureView,
>
    decreases fuel, 1int, 0int,
{
    match tc_expr(ast, rest, left, fuel) {
        Err(f) => Err(f),
        Ok((l, rest1)) => match tc_expr(ast, rest1, right, fuel) {
            Err(f) => Err(f),
            Ok((r, rest2)) => match type_in(rest2.types, l) {
                None => tfault(TypeCheckFault::MissingType),
                Some(lt) => if !type_is_numeric(lt) {
                    terr("Can not binop expr (left) "@ + type_debug(lt) + "."@)
                } else {
                    match type_in(rest2.types, r) {
                        None => tfault(TypeCheckFault::MissingType),
                        Some(rt) => if !type_is_numeric(rt) {
                            terr("Can not binop expr (right) "@ + type_debug(lt) + "."@)
                        } else {
                            match reduce_types(rest2.types, l, r) {
                                Err(f) => Err(f),
                                Ok(res) => match tc_give(ast, with_expr_ty(rest2, e, res), left, res) {
                                    Err(f) => Err(f),
                                    Ok(rest4) => match tc_give(ast, rest4, right, res) {
                                        Err(f) => Err(f),
                                        Ok(rest5) => Ok((res, rest5)),
                                    },
                                },
                            }
                        },
                    }
                },
            },
        },
    }
}

/// Checks the call arguments from the `k`-th on against the parameters' types.
pub open spec fn tc_args(
    ast: Ast,
    rest: ContextRest,
    params: Seq<(Seq<char>, TypeId)>,
    args: Seq<int>,
    k: int,
    fuel: nat,
) -> Result<ContextRest, TypeCheckFailureView>
    decreases fuel, 1int, params.len() - k,
{
    if 0 <= k < params.len() && k < args.len() {
        match tc_expr(ast, rest, args[k], fuel) {
            Err(f) => Err(f),
            Ok((at, rest1)) => match reduce_types(rest1.types, params[k].1, at) {
                Err(f) => Err(f),
                Ok(r) => match tc_give(ast, rest1, args[k], r) {
                    Err(f) => Err(f),
                    Ok(rest2) => tc_args(ast, rest2, params, args, k + 1, fuel),
                },
            },
        }
    } else {
        Ok(rest)
    }
}

/// The message for a returned value whose type does not meet the function's.
pub open spec fn return_message(ty: TypeId, ret: TypeId, why: Seq<char>) -> Seq<char> {
    "return expr type ("@ + type_id_debug(ty) + ") isn't the same as expected return type ("@
        + type_id_debug(ret) + ") ("@ + why + ")."@
}

/// Checks `return e` in a function whose return type is `ret`.
pub open spec fn tc_ret(ast: Ast, rest: ContextRest, ret: Option<TypeId>, e: int) -> Result<
    ContextRest,
    TypeCheckFailureView,
> {
    match tc_check(ast, rest, e) {
        Err(f) => Err(f),
        Ok((ty, rest1)) => match ret {
            None => terr("return expr for no expeced return type"@),
            Some(rt) => match reduce_types(rest1.types, ty, rt) {
                Ok(r) => tc_give(ast, rest1, e, r),
                Err(TypeCheckFailureView::Error(why)) => terr(return_message(ty, rt, why)),
                Err(f) => Err(f),
            },
        },
    }
}

/// Checks the condition `cond` of an `if`, which must be numeric.
pub open spec fn tc_cond(ast: Ast, rest: ContextRest, cond: int) -> Result<
    ContextRest,
    TypeCheckFailureView,
> {
    match tc_check(ast, rest, cond) {
        Err(f) => Err(f),
        Ok((c, rest1)) => match type_in(rest1.types, c) {
            None => tfault(TypeCheckFault::MissingType),
            Some(t) => if type_is_numeric(t) {
                Ok(rest1)
            } else {
                tfault(TypeCheckFault::NotCondition)
            },
        },
    }
}

/// Checks a declaration statement `s` with value `val`: the value must meet
/// the declared type; without a declared type, the object takes the value's.
pub open spec fn tc_vardec(ast: Ast, rest: ContextRest, s: int, val: Option<int>) -> Result<
    ContextRest,
    TypeCheckFailureView,
> {
    if !rest.vardec_refs.contains_key(s as usize) {
        tfault(TypeCheckFault::MissingRef)
    } else {
        let oid = rest.vardec_refs[s as usize];
        if oid.0 >= rest.objects.len() {
            tfault(TypeCheckFault::MissingObject)
        } else {
            let obj = rest.objects[oid.0 as int];
            match val {
                None => Ok(rest),
                Some(v) => match tc_check(ast, rest, v) {
                    Err(f) => Err(f),
                    Ok((et, rest1)) => match obj.ty {
                        Some(ty) => match reduce_types(rest1.types, ty, et) {
                            Err(f) => Err(f),
                            Ok(rt) => tc_give(ast, rest1, v, rt),
                        },
                        None => Ok(
                            ContextRest {
                                objects: rest1.objects.update(
                                    oid.0 as int,
                                    ObjectView { ty: Some(et), ..obj },
                                ),
                                ..rest1
                            },
                        ),
                    },
                },
            }
        }
    }
}

/// Checks an assignment: both sides, and the type they come to, which is
/// given to both.
pub open spec fn tc_assign(ast: Ast, rest: ContextRest, left: int, right: int) -> Result<
    ContextRest,
    TypeCheckFailureView,
> {
    match tc_check(ast, rest, left) {
        Err(f) => Err(f),
        Ok((tt, rest1)) => match tc_check(ast, rest1, right) {
            Err(f) => Err(f),
            Ok((et, rest2)) => match reduce_types(rest2.types, tt, et) {
                Err(f) => Err(f),
                Ok(res) => match tc_give(ast, rest2, left, res) {
                    Err(f) => Err(f),
                    Ok(rest3) => tc_give(ast, rest3, right, res),
                },
            },
        },
    }
}

/// Checks statement `s` in a function whose return type is `ret`, going at
/// most `fuel` levels into nested blocks (as for expressions).
pub open spec fn tc_stmt(ast: Ast, rest: ContextRest, ret: Option<TypeId>, s: int, fuel: nat) -> Result<
    ContextRest,
    TypeCheckFailureView,
>
    decreases fuel, 0int, 0int,
{
    if !(0 <= s < ast.stmts.len()) {
        tfault(TypeCheckFault::MissingNode)
    } else if fuel == 0 {
        tfault(TypeCheckFault::MalformedTree)
    } else {
        match ast.stmts[s].0 {
            StmtNode::Return { expr } => tc_ret(ast, rest, ret, expr),
            StmtNode::Expr { expr } => match tc_check(ast, rest, expr) {
                Err(f) => Err(f),
                Ok((_, rest1)) => Ok(rest1),
            },
            StmtNode::If { cond, block, alts, else_block } => tc_if(
                ast,
                rest,
                ret,
                cond,
                block,
                alts,
                else_block,
                (fuel - 1) as nat,
            ),
            StmtNode::Assign { left, right, .. } => tc_assign(ast, rest, left, right),
            StmtNode::VarDec { val, .. } => tc_vardec(ast, rest, s, val),
        }
    }
}

/// Checks an `if`: its condition and block, each `else if`, then the `else` block.
pub open spec fn tc_if(
    ast: Ast,
    rest: ContextRest,
    ret: Option<TypeId>,
    cond: int,
    block: Seq<int>,
    alts: Seq<(int, Seq<int>)>,
    else_block: Option<Seq<int>>,
    fuel: nat,
) -> Result<ContextRest, TypeCheckFailureView>
    decreases fuel, 3int, 0int,
{
    match tc_cond(ast, rest, cond) {
        Err(f) => Err(f),
        Ok(rest1) => match tc_block(ast, rest1, ret, block, 0, fuel) {
            Err(f) => Err(f),
            Ok(rest2) => match tc_alts(ast, rest2, ret, alts, 0, fuel) {
                Err(f) => Err(f),
                Ok(rest3) => match else_block {
                    Some(b) => tc_block(ast, rest3, ret, b, 0, fuel),
                    None => Ok(rest3),
                },
            },
        },
    }
}

/// Checks the `else if` parts from the `k`-th on.
pub open spec fn tc_alts(
    ast: Ast,
    rest: ContextRest,
    ret: Option<TypeId>,
    alts: Seq<(int, Seq<int>)>,
    k: int,
    fuel: nat,
) -> Result<ContextRest, TypeCheckFailureView>
    decreases fuel, 2int, alts.len() - k,
{
    if 0 <= k < alts.len() {
        match tc_cond(ast, rest, alts[k].0) {
            Err(f) => Err(f),
            Ok(rest1) => match tc_block(ast, rest1, ret, alts[k].1, 0, fuel) {
                Err(f) => Err(f),
                Ok(rest2) => tc_alts(ast, rest2, ret, alts, k + 1, fuel),
            },
        }
    } else {
        Ok(rest)
    }
}

/// Checks the statements of a block from the `k`-th on.
pub open spec fn tc_block(
    ast: Ast,
    rest: ContextRest,
    ret: Option<TypeId>,
    ids: Seq<int>,
    k: int,
    fuel: nat,
) -> Result<ContextRest, TypeCheckFailureView>
    decreases fuel, 1int, ids.len() - k,
{
    if 0 <= k < ids.len() {
        match tc_stmt(ast, rest, ret, ids[k], fuel) {
            Err(f) => Err(f),
            Ok(rest1) => tc_block(ast, rest1, ret, ids, k + 1, fuel),
        }
    } else {
        Ok(rest)
    }
}

/// Checks the body of function declaration `i` against the return type of
/// the function type that resolution gave it.
pub open spec fn tc_fndec(ast: Ast, rest: ContextRest, i: int) -> Result<
    ContextRest,
    TypeCheckFailureView,
> {
    if !(0 <= i < ast.items.len()) {
        tfault(TypeCheckFault::MissingNode)
    } else {
        match ast.items[i].0 {
            ItemNode::FnDec { body, .. } => if !rest.item_refs.contains_key(i as usize) {
                tfault(TypeCheckFault::MissingRef)
            } else {
                let oid = rest.item_refs[i as usize];
                if oid.0 >= rest.objects.len() {
                    tfault(TypeCheckFault::MissingObject)
                } else {
                    match rest.objects[oid.0 as int].ty {
                        None => tfault(TypeCheckFault::UntypedFunction),
                        Some(tid) => match type_in(rest.types, tid) {
                            None => tfault(TypeCheckFault::MissingType),
                            Some(TypeView::Function(f)) => match body {
                                None => tfault(TypeCheckFault::MissingBody),
                                Some(b) => tc_block(ast, rest, f.ret_ty, b, 0, ast.stmts.len()),
                            },
                            Some(_) => tfault(TypeCheckFault::NotFunctionType),
                        },
                    }
                }
            },
            _ => tfault(TypeCheckFault::UnsupportedItem),
        }
    }
}

/// Checks item `i`.
pub open spec fn tc_item(ast: Ast, rest: ContextRest, i: int) -> Result<
    ContextRest,
    TypeCheckFailureView,
> {
    if !(0 <= i < ast.items.len()) {
        tfault(TypeCheckFault::MissingNode)
    } else {
        match ast.items[i].0 {
            ItemNode::FnDec { .. } => tc_fndec(ast, rest, i),
            _ => tfault(TypeCheckFault::UnsupportedItem),
        }
    }
}

/// Checks the items from the `k`-th on.
pub open spec fn tc_items(ast: Ast, rest: ContextRest, items: Seq<int>, k: int) -> Result<
    ContextRest,
    TypeCheckFailureView,
>
    decreases items.len() - k,
{
    if 0 <= k < items.len() {
        match tc_item(ast, rest, items[k]) {
            Err(f) => Err(f),
            Ok(rest1) => tc_items(ast, rest1, items, k + 1),
        }
    } else {
        Ok(rest)
    }
}

/// Checks module `m`: each of its items in turn.
pub open spec fn tc_module(ast: Ast, rest: ContextRest, m: int) -> Result<
    ContextRest,
    TypeCheckFailureView,
> {
    if !(0 <= m < ast.mods.len()) {
        tfault(TypeCheckFault::MissingNode)
    } else {
        tc_items(ast, rest, ast.mods[m].0, 0)
    }
}


/// Checking an `if` that has an `else` block is checking the same `if`
/// without it, then every statement of the `else` block, in order, from
/// the state that leaves: the `if` fails where the block fails, and ends
/// where the block ends.
pub proof fn law_else_block_is_checked(
    ast: Ast,
    rest: ContextRest,
    ret: Option<TypeId>,
    cond: int,
    block: Seq<int>,
    alts: Seq<(int, Seq<int>)>,
    else_block: Seq<int>,
    fuel: nat,
)
    ensures
        tc_if(ast, rest, ret, cond, block, alts, Some(else_block), fuel) == match tc_if(
            ast,
            rest,
            ret,
            cond,
            block,
            alts,
            None,
            fuel,
        ) {
            Ok(r) => tc_block(ast, r, ret, else_block, 0, fuel),
            Err(f) => Err(f),
        },
{
}

/// An `if` statement that checks ends in a state that checking its `else`
/// block (where it has one) ends in.
pub proof fn law_checked_if_checked_its_else_block(ast: Ast, rest: ContextRest, ret: Option<TypeId>, s: int, fuel: nat)
    requires
        0 <= s < ast.stmts.len(),
        ast.stmts[s].0 matches StmtNode::If { else_block, .. } && else_block is Some,
    ensures
        tc_stmt(ast, rest, ret, s, fuel) matches Ok(after) ==> match ast.stmts[s].0 {
            StmtNode::If { cond, block, alts, else_block } => exists|mid: ContextRest|
                #[trigger] tc_block(ast, mid, ret, else_block.unwrap(), 0, (fuel - 1) as nat) == Ok::<
                    ContextRest,
                    TypeCheckFailureView,
                >(after),
            _ => false,
        },
{
    if let Ok(after) = tc_stmt(ast, rest, ret, s, fuel) {
        if let StmtNode::If { cond, block, alts, else_block } = ast.stmts[s].0 {
            let f = (fuel - 1) as nat;
            law_else_block_is_checked(ast, rest, ret, cond, block, alts, else_block.unwrap(), f);
            if let Ok(mid) = tc_if(ast, rest, ret, cond, block, alts, None, f) {
                assert(tc_block(ast, mid, ret, else_block.unwrap(), 0, f) == Ok::<ContextRest, TypeCheckFailureView>(after));
            }
        }
    }
}

/// An expression that checks is recorded with the type it checks to.
pub proof fn law_checked_expression_has_its_type(ast: Ast, rest: ContextRest, e: int, fuel: nat)
    ensures
        tc_expr(ast, rest, e, fuel) matches Ok((t, after)) ==> after.expr_ty_refs.contains_key(e as usize)
            && after.expr_ty_refs[e as usize] == t,
{
}

// ---------------------------------------------------------------------------
// Trees without cycles check without tree faults
// ---------------------------------------------------------------------------

/// `r` is not a failure for a node id that names no node, nor for a node
/// that contains itself.
pub open spec fn no_tree_fault<T>(r: Result<T, TypeCheckFailureView>) -> bool {
    !(r matches Err(TypeCheckFailureView::Fault(f)) && (f == TypeCheckFault::MalformedTree || f
        == TypeCheckFault::MissingNode))
}

proof fn lemma_propagate_ranked(
    ast: Ast,
    rest: ContextRest,
    e: int,
    ty: TypeId,
    fuel: nat,
    er: spec_fn(int) -> int,
    sr: spec_fn(int) -> int,
)
    requires
        well_ranked(ast, er, sr),
        0 <= e < ast.exprs.len(),
        er(e) < fuel,
    ensures
        no_tree_fault(tc_propagate(ast, rest, e, ty, fuel)),
    decreases fuel,
{
    let f1 = (fuel - 1) as nat;
    if type_in(rest.types, ty) is Some {
        if let ExprNode::Binop { left, right, .. } = ast.exprs[e].0 {
            if rest.expr_ty_refs.contains_key(e as usize) {
                if let Some(current) = type_in(rest.types, rest.expr_ty_refs[e as usize]) {
                    let rest1 = if type_is_untyped(current) {
                        with_expr_ty(rest, e, ty)
                    } else {
                        rest
                    };
                    lemma_propagate_ranked(ast, rest1, left, ty, f1, er, sr);
                    if let Ok(rest2) = tc_propagate(ast, rest1, left, ty, f1) {
                        lemma_propagate_ranked(ast, rest2, right, ty, f1, er, sr);
                    }
                }
            }
        }
    }
}

proof fn lemma_give_ranked(ast: Ast, rest: ContextRest, e: int, ty: TypeId, er: spec_fn(int) -> int, sr: spec_fn(int) -> int)
    requires
        well_ranked(ast, er, sr),
        0 <= e < ast.exprs.len(),
    ensures
        no_tree_fault(tc_give(ast, rest, e, ty)),
{
    let _ = ast.exprs[e].0;
    lemma_propagate_ranked(ast, rest, e, ty, ast.exprs.len(), er, sr);
}

proof fn lemma_expr_ranked(
    ast: Ast,
    rest: ContextRest,
    e: int,
    fuel: nat,
    er: spec_fn(int) -> int,
    sr: spec_fn(int) -> int,
)
    requires
        well_ranked(ast, er, sr),
        0 <= e < ast.exprs.len(),
        er(e) < fuel,
    ensures
        no_tree_fault(tc_expr(ast, rest, e, fuel)),
    decreases fuel, 0int, 0int,
{
    let f1 = (fuel - 1) as nat;
    match ast.exprs[e].0 {
        ExprNode::Binop { left, right, .. } => {
            lemma_binop_ranked(ast, rest, e, left, right, f1, er, sr);
        },
        ExprNode::FnCall { target, args } => {
            lemma_expr_ranked(ast, rest, target, f1, er, sr);
            if let Ok((tid, rest1)) = tc_expr(ast, rest, target, f1) {
                if let Some(TypeView::Function(f)) = type_in(rest1.types, tid) {
                    lemma_args_ranked(ast, rest1, f.args, args, 0, f1, er, sr);
                }
            }
        },
        _ => {},
    }
}

proof fn lemma_check_ranked(ast: Ast, rest: ContextRest, e: int, er: spec_fn(int) -> int, sr: spec_fn(int) -> int)
    requires
        well_ranked(ast, er, sr),
        0 <= e < ast.exprs.len(),
    ensures
        no_tree_fault(tc_check(ast, rest, e)),
{
    let _ = ast.exprs[e].0;
    lemma_expr_ranked(ast, rest, e, ast.exprs.len(), er, sr);
}

proof fn lemma_binop_ranked(
    ast: Ast,
    rest: ContextRest,
    e: int,
    left: int,
    right: int,
    fuel: nat,
    er: spec_fn(int) -> int,
    sr: spec_fn(int) -> int,
)
    requires
        well_ranked(ast, er, sr),
        0 <= left < ast.exprs.len(),
        0 <= right < ast.exprs.len(),
        er(left) < fuel,
        er(right) < fuel,
    ensures
        no_tree_fault(tc_binop(ast, rest, e, left, right, fuel)),
    decreases fuel, 1int, 0int,
{
    lemma_expr_ranked(ast, rest, left, fuel, er, sr);
    if let Ok((l, rest1)) = tc_expr(ast, rest, left, fuel) {
        lemma_expr_ranked(ast, rest1, right, fuel, er, sr);
        if let Ok((r, rest2)) = tc_expr(ast, rest1, right, fuel) {
            if let Ok(res) = reduce_types(rest2.types, l, r) {
                let rest3 = with_expr_ty(rest2, e, res);
                lemma_give_ranked(ast, rest3, left, res, er, sr);
                if let Ok(rest4) = tc_give(ast, rest3, left, res) {
                    lemma_give_ranked(ast, rest4, right, res, er, sr);
                }
            }
        }
    }
}

proof fn lemma_args_ranked(
    ast: Ast,
    rest: ContextRest,
    params: Seq<(Seq<char>, TypeId)>,
    args: Seq<int>,
    k: int,
    fuel: nat,
    er: spec_fn(int) -> int,
    sr: spec_fn(int) -> int,
)
    requires
        well_ranked(ast, er, sr),
        forall|j: int| 0 <= j < args.len() ==> 0 <= #[trigger] args[j] < ast.exprs.len() && er(args[j]) < fuel,
    ensures
        no_tree_fault(tc_args(ast, rest, params, args, k, fuel)),
    decreases fuel, 1int, params.len() - k,
{
    if 0 <= k < params.len() && k < args.len() {
        assert(0 <= args[k] < ast.exprs.len() && er(args[k]) < fuel);
        lemma_expr_ranked(ast, rest, args[k], fuel, er, sr);
        if let Ok((at, rest1)) = tc_expr(ast, rest, args[k], fuel) {
            if let Ok(r) = reduce_types(rest1.types, params[k].1, at) {
                lemma_give_ranked(ast, rest1, args[k], r, er, sr);
                if let Ok(rest2) = tc_give(ast, rest1, args[k], r) {
                    lemma_args_ranked(ast, rest2, params, args, k + 1, fuel, er, sr);
                }
            }
        }
    }
}

proof fn lemma_stmt_ranked(
    ast: Ast,
    rest: ContextRest,
    ret: Option<TypeId>,
    s: int,
    fuel: nat,
    er: spec_fn(int) -> int,
    sr: spec_fn(int) -> int,
)
    requires
        well_ranked(ast, er, sr),
        0 <= s < ast.stmts.len(),
        sr(s) < fuel,
    ensures
        no_tree_fault(tc_stmt(ast, rest, ret, s, fuel)),
    decreases fuel, 0int, 0int,
{
    let f1 = (fuel - 1) as nat;
    let ns = ast.stmts.len() as int;
    let ne = ast.exprs.len() as int;
    assert(stmt_ranked(ast.stmts[s].0, sr(s), sr, ns, ne));
    match ast.stmts[s].0 {
        StmtNode::Return { expr } => {
            lemma_check_ranked(ast, rest, expr, er, sr);
            if let Ok((ty, rest1)) = tc_check(ast, rest, expr) {
                if let Some(rt) = ret {
                    if let Ok(r) = reduce_types(rest1.types, ty, rt) {
                        lemma_give_ranked(ast, rest1, expr, r, er, sr);
                    }
                }
            }
        },
        StmtNode::Expr { expr } => {
            lemma_check_ranked(ast, rest, expr, er, sr);
        },
        StmtNode::If { cond, block, alts, else_block } => {
            lemma_block_ranked_grow(block, sr(s), f1 as int, sr, ns);
            lemma_alts_ranked_grow(alts, sr(s), f1 as int, sr, ns, ne);
            if let Some(b) = else_block {
                lemma_block_ranked_grow(b, sr(s), f1 as int, sr, ns);
            }
            lemma_if_ranked(ast, rest, ret, cond, block, alts, else_block, f1, er, sr);
        },
        StmtNode::Assign { left, right, .. } => {
            lemma_check_ranked(ast, rest, left, er, sr);
            if let Ok((tt, rest1)) = tc_check(ast, rest, left) {
                lemma_check_ranked(ast, rest1, right, er, sr);
                if let Ok((et, rest2)) = tc_check(ast, rest1, right) {
                    if let Ok(res) = reduce_types(rest2.types, tt, et) {
                        lemma_give_ranked(ast, rest2, left, res, er, sr);
                        if let Ok(rest3) = tc_give(ast, rest2, left, res) {
                            lemma_give_ranked(ast, rest3, right, res, er, sr);
                        }
                    }
                }
            }
        },
        StmtNode::VarDec { val, .. } => {
            if let Some(v) = val {
                lemma_check_ranked(ast, rest, v, er, sr);
                if let Ok((et, rest1)) = tc_check(ast, rest, v) {
                    if rest.vardec_refs.contains_key(s as usize) {
                        let oid = rest.vardec_refs[s as usize];
                        if oid.0 < rest.objects.len() {
                            if let Some(ty) = rest.objects[oid.0 as int].ty {
                                if let Ok(rt) = reduce_types(rest1.types, ty, et) {
                                    lemma_give_ranked(ast, rest1, v, rt, er, sr);
                                }
                            }
                        }
                    }
                }
            }
        },
    }
}

proof fn lemma_if_ranked(
    ast: Ast,
    rest: ContextRest,
    ret: Option<TypeId>,
    cond: int,
    block: Seq<int>,
    alts: Seq<(int, Seq<int>)>,
    else_block: Option<Seq<int>>,
    fuel: nat,
    er: spec_fn(int) -> int,
    sr: spec_fn(int) -> int,
)
    requires
        well_ranked(ast, er, sr),
        0 <= cond < ast.exprs.len(),
        block_ranked(block, fuel as int, sr, ast.stmts.len() as int),
        alts_ranked(alts, fuel as int, sr, ast.stmts.len() as int, ast.exprs.len() as int),
        else_block matches Some(b) ==> block_ranked(b, fuel as int, sr, ast.stmts.len() as int),
    ensures
        no_tree_fault(tc_if(ast, rest, ret, cond, block, alts, else_block, fuel)),
    decreases fuel, 3int, 0int,
{
    lemma_check_ranked(ast, rest, cond, er, sr);
    if let Ok(rest1) = tc_cond(ast, rest, cond) {
        lemma_block_ranked_ok(ast, rest1, ret, block, 0, fuel, er, sr);
        if let Ok(rest2) = tc_block(ast, rest1, ret, block, 0, fuel) {
            lemma_alts_ranked_ok(ast, rest2, ret, alts, 0, fuel, er, sr);
            if let Ok(rest3) = tc_alts(ast, rest2, ret, alts, 0, fuel) {
                if let Some(b) = else_block {
                    lemma_block_ranked_ok(ast, rest3, ret, b, 0, fuel, er, sr);
                }
            }
        }
    }
}

proof fn lemma_alts_ranked_ok(
    ast: Ast,
    rest: ContextRest,
    ret: Option<TypeId>,
    alts: Seq<(int, Seq<int>)>,
    k: int,
    fuel: nat,
    er: spec_fn(int) -> int,
    sr: spec_fn(int) -> int,
)
    requires
        well_ranked(ast, er, sr),
        alts_ranked(alts, fuel as int, sr, ast.stmts.len() as int, ast.exprs.len() as int),
    ensures
        no_tree_fault(tc_alts(ast, rest, ret, alts, k, fuel)),
    decreases fuel, 2int, alts.len() - k,
{
    if 0 <= k < alts.len() {
        assert(0 <= alts[k].0 < ast.exprs.len() && block_ranked(alts[k].1, fuel as int, sr, ast.stmts.len() as int));
        lemma_check_ranked(ast, rest, alts[k].0, er, sr);
        if let Ok(rest1) = tc_cond(ast, rest, alts[k].0) {
            lemma_block_ranked_ok(ast, rest1, ret, alts[k].1, 0, fuel, er, sr);
            if let Ok(rest2) = tc_block(ast, rest1, ret, alts[k].1, 0, fuel) {
                lemma_alts_ranked_ok(ast, rest2, ret, alts, k + 1, fuel, er, sr);
            }
        }
    }
}

proof fn lemma_block_ranked_ok(
    ast: Ast,
    rest: ContextRest,
    ret: Option<TypeId>,
    ids: Seq<int>,
    k: int,
    fuel: nat,
    er: spec_fn(int) -> int,
    sr: spec_fn(int) -> int,
)
    requires
        well_ranked(ast, er, sr),
        block_ranked(ids, fuel as int, sr, ast.stmts.len() as int),
    ensures
        no_tree_fault(tc_block(ast, rest, ret, ids, k, fuel)),
    decreases fuel, 1int, ids.len() - k,
{
    if 0 <= k < ids.len() {
        assert(0 <= ids[k] < ast.stmts.len() && sr(ids[k]) < fuel);
        lemma_stmt_ranked(ast, rest, ret, ids[k], fuel, er, sr);
        if let Ok(rest1) = tc_stmt(ast, rest, ret, ids[k], fuel) {
            lemma_block_ranked_ok(ast, rest1, ret, ids, k + 1, fuel, er, sr);
        }
    }
}

proof fn lemma_items_ranked(
    ast: Ast,
    rest: ContextRest,
    items: Seq<int>,
    k: int,
    er: spec_fn(int) -> int,
    sr: spec_fn(int) -> int,
)
    requires
        well_ranked(ast, er, sr),
        ids_below(items, ast.items.len() as int),
    ensures
        no_tree_fault(tc_items(ast, rest, items, k)),
    decreases items.len() - k,
{
    if 0 <= k < items.len() {
        let i = items[k];
        if let ItemNode::FnDec { body: Some(b), .. } = ast.items[i].0 {
            lemma_body_ranked(ast, er, sr, b);
            assert forall|ret: Option<TypeId>| no_tree_fault(#[trigger] tc_block(ast, rest, ret, b, 0, ast.stmts.len())) by {
                lemma_block_ranked_ok(ast, rest, ret, b, 0, ast.stmts.len(), er, sr);
            }
        }
        if let Ok(rest1) = tc_item(ast, rest, i) {
            lemma_items_ranked(ast, rest1, items, k + 1, er, sr);
        }
    }
}

/// Type checking a module of a tree without cycles never meets a node id
/// that names no node, nor a node that contains itself.
pub proof fn law_acyclic_tree_checks_without_tree_faults(
    ast: Ast,
    rest: ContextRest,
    m: int,
    er: spec_fn(int) -> int,
    sr: spec_fn(int) -> int,
)
    requires
        well_ranked(ast, er, sr),
        0 <= m < ast.mods.len(),
    ensures
        no_tree_fault(tc_module(ast, rest, m)),
{
    assert(ids_below(ast.mods[m].0, ast.items.len() as int));
    lemma_items_ranked(ast, rest, ast.mods[m].0, 0, er, sr);
}

// ---------------------------------------------------------------------------
// The type checker
// ---------------------------------------------------------------------------

/// `r` is what `spec` says, and so is the context after (`after`), when it succeeds.
pub open spec fn checked(
    r: Result<(), TypeCheckFailure>,
    after: ContextRest,
    spec: Result<ContextRest, TypeCheckFailureView>,
) -> bool {
    match spec {
        Ok(rest) => r is Ok && after == rest,
        Err(f) => r matches Err(e) && e@ == f,
    }
}

/// `r` is the type that `spec` gives, and the context after is the one it
/// gives, when it succeeds.
pub open spec fn checked_type(
    r: Result<TypeId, TypeCheckFailure>,
    after: ContextRest,
    spec: Result<(TypeId, ContextRest), TypeCheckFailureView>,
) -> bool {
    match spec {
        Ok((t, rest)) => r == Ok::<TypeId, TypeCheckFailure>(t) && after == rest,
        Err(f) => r matches Err(e) && e@ == f,
    }
}

/// `r` is the type id that `spec` gives.
pub open spec fn reduced(r: Result<TypeId, TypeCheckFailure>, spec: Result<TypeId, TypeCheckFailureView>) -> bool {
    match spec {
        Ok(t) => r == Ok::<TypeId, TypeCheckFailure>(t),
        Err(f) => r matches Err(e) && e@ == f,
    }
}

/// `new` has the objects of `old`, with the same names; an object that had
/// a type keeps it, one that had none may have got one.
pub open spec fn objects_typed(new: Seq<ObjectView>, old: Seq<ObjectView>) -> bool {
    &&& new.len() == old.len()
    &&& forall|i: int|
        0 <= i < old.len() ==> (#[trigger] new[i]).name == old[i].name && (old[i].ty is Some
            ==> new[i] == old[i])
}

/// Object `i` is declared, as `refs` records, by statement `s` or by a
/// statement nested in its blocks (within `fuel` levels of nesting).
pub open spec fn declared_within(ast: Ast, refs: Map<usize, ObjectId>, s: int, fuel: nat, i: int) -> bool
    decreases fuel, 0int, 0int,
{
    ||| 0 <= s && refs.contains_key(s as usize) && refs[s as usize].0 == i
    ||| fuel > 0 && 0 <= s < ast.stmts.len() && match ast.stmts[s].0 {
        StmtNode::If { block, alts, else_block, .. } => declared_in_if(
            ast,
            refs,
            block,
            alts,
            else_block,
            (fuel - 1) as nat,
            i,
        ),
        _ => false,
    }
}

/// Object `i` is declared within a statement of the blocks of an `if`.
pub open spec fn declared_in_if(
    ast: Ast,
    refs: Map<usize, ObjectId>,
    block: Seq<int>,
    alts: Seq<(int, Seq<int>)>,
    else_block: Option<Seq<int>>,
    fuel: nat,
    i: int,
) -> bool
    decreases fuel, 3int, 0int,
{
    ||| declared_in_block(ast, refs, block, 0, fuel, i)
    ||| declared_in_alts(ast, refs, alts, 0, fuel, i)
    ||| else_block matches Some(b) && declared_in_block(ast, refs, b, 0, fuel, i)
}

/// Object `i` is declared within a statement of the blocks of the `else if`
/// parts from the `k`-th on.
pub open spec fn declared_in_alts(
    ast: Ast,
    refs: Map<usize, ObjectId>,
    alts: Seq<(int, Seq<int>)>,
    k: int,
    fuel: nat,
    i: int,
) -> bool
    decreases fuel, 2int, alts.len() - k,
{
    0 <= k < alts.len() && (declared_in_block(ast, refs, alts[k].1, 0, fuel, i) || declared_in_alts(
        ast,
        refs,
        alts,
        k + 1,
        fuel,
        i,
    ))
}

/// Object `i` is declared within a statement of block `ids`, from the
/// `k`-th on.
pub open spec fn declared_in_block(ast: Ast, refs: Map<usize, ObjectId>, ids: Seq<int>, k: int, fuel: nat, i: int) -> bool
    decreases fuel, 1int, ids.len() - k,
{
    0 <= k < ids.len() && (declared_within(ast, refs, ids[k], fuel, i) || declared_in_block(
        ast,
        refs,
        ids,
        k + 1,
        fuel,
        i,
    ))
}

proof fn lemma_declared_in_block(ast: Ast, refs: Map<usize, ObjectId>, ids: Seq<int>, j: int, k: int, fuel: nat, i: int)
    requires
        0 <= j <= k < ids.len(),
        declared_within(ast, refs, ids[k], fuel, i),
    ensures
        declared_in_block(ast, refs, ids, j, fuel, i),
    decreases k - j,
{
    if j < k {
        lemma_declared_in_block(ast, refs, ids, j + 1, k, fuel, i);
    }
}

proof fn lemma_declared_in_alts(ast: Ast, refs: Map<usize, ObjectId>, alts: Seq<(int, Seq<int>)>, j: int, k: int, fuel: nat, i: int)
    requires
        0 <= j <= k < alts.len(),
        declared_in_block(ast, refs, alts[k].1, 0, fuel, i),
    ensures
        declared_in_alts(ast, refs, alts, j, fuel, i),
    decreases k - j,
{
    if j < k {
        lemma_declared_in_alts(ast, refs, alts, j + 1, k, fuel, i);
    }
}

/// Some declaration statement recorded in `refs` declares object `i`.
pub open spec fn declared_object(refs: Map<usize, ObjectId>, i: int) -> bool {
    exists|k: usize| refs.contains_key(k) && (#[trigger] refs[k]).0 == i
}

/// What type checking leaves of a context (`old_ast`, `old`) in
/// (`ast`, `rest`): the syntax tree, the base scope and the references
/// unchanged, the types grown, and objects only typed, and only those that
/// a declaration statement declares.
pub open spec fn rest_frame(ast: Ast, rest: ContextRest, old_ast: Ast, old: ContextRest) -> bool {
    &&& ast == old_ast
    &&& rest.base_scope == old.base_scope
    &&& rest.expr_refs == old.expr_refs
    &&& rest.item_refs == old.item_refs
    &&& rest.vardec_refs == old.vardec_refs
    &&& types_grown(rest.types, old.types)
    &&& objects_typed(rest.objects, old.objects)
    &&& forall|i: int|
        0 <= i < old.objects.len() && #[trigger] rest.objects[i] != old.objects[i] ==> declared_object(
            old.vardec_refs,
            i,
        )
}

/// Checks that the values of a module are used at types that fit, giving
/// each expression its type; literals take the type of what they meet.
pub struct TypeChecker {
    ctx: Context,
    current_fn_ret_type: Option<TypeId>,
}

impl TypeChecker {
    pub closed spec fn ast(&self) -> Ast {
        self.ctx.ast()
    }

    pub closed spec fn rest(&self) -> ContextRest {
        self.ctx.rest()
    }

    /// The return type of the function being checked.
    pub closed spec fn ret(&self) -> Option<TypeId> {
        self.current_fn_ret_type
    }

    /// What no step of checking changes: the syntax tree, the base scope,
    /// the recorded references and the types already interned (new ones may
    /// be added); an object only gets a type where it had none.
    pub open spec fn frame(&self, other: &TypeChecker) -> bool {
        rest_frame(self.ast(), self.rest(), other.ast(), other.rest())
    }

    /// The frame of a step on an expression: moreover, no object changes.
    pub open spec fn expr_frame(&self, other: &TypeChecker) -> bool {
        &&& self.frame(other)
        &&& self.rest().objects == other.rest().objects
    }

    /// Gives the type `ty` to the literals of expression `expr`, and to its
    /// operators whose type is still a literal's.
    fn propagate_type(&mut self, expr: parser::ExprId, ty: TypeId, fuel: usize) -> (r: Result<(), TypeCheckFailure>)
        ensures
            final(self).expr_frame(old(self)),
            final(self).ret() == old(self).ret(),
            checked(r, final(self).rest(), tc_propagate(old(self).ast(), old(self).rest(), expr@, ty, fuel as nat)),
        decreases fuel,
    {
        match self.ctx.get_type(ty) {
            Some(_) => {},
            None => return Err(TypeCheckFailure::Fault(TypeCheckFault::MissingType)),
        }
        let e = match self.ctx.get_expr(expr) {
            Ok(e) => e.clone(),
            Err(_) => return Err(TypeCheckFailure::Fault(TypeCheckFault::MissingNode)),
        };
        if fuel == 0 {
            return Err(TypeCheckFailure::Fault(TypeCheckFault::MalformedTree));
        }
        match e {
            parser::Expr::Number(_) => {
                self.ctx.new_expr_ty_ref(expr, ty);
                Ok(())
            },
            parser::Expr::Symbol(_) => Ok(()),
            parser::Expr::Binop(b) => {
                let current = match self.ctx.find_expr_ty_ref(expr) {
                    Some(c) => c,
                    None => return Err(TypeCheckFailure::Fault(TypeCheckFault::MissingRef)),
                };
                let untyped = match self.ctx.get_type(current) {
                    Some(t) => t.is_untyped(),
                    None => return Err(TypeCheckFailure::Fault(TypeCheckFault::MissingType)),
                };
                if untyped {
                    self.ctx.new_expr_ty_ref(expr, ty);
                }
                match self.propagate_type(b.left, ty, fuel - 1) {
                    Ok(()) => {},
                    Err(e) => return Err(e),
                }
                self.propagate_type(b.right, ty, fuel - 1)
            },
            parser::Expr::FnCall(_) => Ok(()),
            _ => Err(TypeCheckFailure::Fault(TypeCheckFault::UnsupportedExpression)),
        }
    }

    /// Gives the type `ty` to the literals of expression `expr`: a whole walk.
    fn give_type(&mut self, expr: parser::ExprId, ty: TypeId) -> (r: Result<(), TypeCheckFailure>)
        ensures
            final(self).expr_frame(old(self)),
            final(self).ret() == old(self).ret(),
            checked(r, final(self).rest(), tc_give(old(self).ast(), old(self).rest(), expr@, ty)),
    {
        let fuel = self.ctx.expr_count();
        self.propagate_type(expr, ty, fuel)
    }

    /// Checks expression `id` and gives its type: a whole walk.
    fn check_expr(&mut self, id: parser::ExprId) -> (r: Result<TypeId, TypeCheckFailure>)
        ensures
            final(self).expr_frame(old(self)),
            final(self).ret() == old(self).ret(),
            checked_type(r, final(self).rest(), tc_check(old(self).ast(), old(self).rest(), id@)),
    {
        let fuel = self.ctx.expr_count();
        self.tc_expr(id, fuel)
    }

    /// An untyped (literal) numeric type meets a typed numeric one. Both
    /// types are in the context.
    fn compare_and_reduce_numerics_untyped(&mut self, untyped: TypeId, typed: TypeId) -> (r: Result<
        TypeId,
        TypeCheckFailure,
    >)
        requires
            type_in(old(self).rest().types, untyped) is Some,
            type_in(old(self).rest().types, typed) matches Some(t) && type_is_numeric(t) && !type_is_untyped(t),
        ensures
            *final(self) == *old(self),
            reduced(r, reduce_untyped(old(self).rest().types, untyped, typed)),
    {
        let unty_float = match self.ctx.get_type(untyped) {
            Some(t) => t.is_float(),
            None => return Err(TypeCheckFailure::Fault(TypeCheckFault::MissingType)),
        };
        let (ty_float, ty_integer) = match self.ctx.get_type(typed) {
            Some(t) => (t.is_float(), t.is_integer()),
            None => return Err(TypeCheckFailure::Fault(TypeCheckFault::MissingType)),
        };
        if ty_float {
            return Ok(typed);
        }
        if ty_integer {
            return if unty_float {
                Err(TypeCheckFailure::Error(String::from_str("Right type is an int but left is a float lit")))
            } else {
                Ok(typed)
            };
        }
        Err(TypeCheckFailure::Fault(TypeCheckFault::UnsupportedTypes))
    }

    /// Two numeric types meet. Both types are in the context.
    fn compare_and_reduce_numerics(&mut self, left: TypeId, right: TypeId) -> (r: Result<
        TypeId,
        TypeCheckFailure,
    >)
        requires
            type_in(old(self).rest().types, left) matches Some(t) && type_is_numeric(t),
            type_in(old(self).rest().types, right) matches Some(t) && type_is_numeric(t),
        ensures
            *final(self) == *old(self),
            reduced(r, reduce_numerics(old(self).rest().types, left, right)),
    {
        let (l_numeric, l_untyped, l_float) = match self.ctx.get_type(left) {
            Some(t) => (t.is_numeric(), t.is_untyped(), t.is_float()),
            None => return Err(TypeCheckFailure::Fault(TypeCheckFault::MissingType)),
        };
        let (r_numeric, r_untyped) = match self.ctx.get_type(right) {
            Some(t) => (t.is_numeric(), t.is_untyped()),
            None => return Err(TypeCheckFailure::Fault(TypeCheckFault::MissingType)),
        };
        if !l_numeric || !r_numeric {
            return Err(TypeCheckFailure::Fault(TypeCheckFault::UnsupportedTypes));
        }
        if l_untyped && !r_untyped {
            self.compare_and_reduce_numerics_untyped(left, right)
        } else if !l_untyped && r_untyped {
            self.compare_and_reduce_numerics_untyped(right, left)
        } else if l_untyped && r_untyped {
            if l_float {
                Ok(left)
            } else {
                Ok(right)
            }
        } else if left == right {
            Ok(left)
        } else {
            Err(TypeCheckFailure::Error(String::from_str("types don't match")))
        }
    }

    /// The type that `left` and `right` come to when they meet.
    fn compare_and_reduce_types(&mut self, left: TypeId, right: TypeId) -> (r: Result<
        TypeId,
        TypeCheckFailure,
    >)
        ensures
            *final(self) == *old(self),
            reduced(r, reduce_types(old(self).rest().types, left, right)),
    {
        if left == right {
            return Ok(left);
        }
        let l_numeric = match self.ctx.get_type(left) {
            Some(t) => t.is_numeric(),
            None => return Err(TypeCheckFailure::Fault(TypeCheckFault::MissingType)),
        };
        let r_numeric = match self.ctx.get_type(right) {
            Some(t) => t.is_numeric(),
            None => return Err(TypeCheckFailure::Fault(TypeCheckFault::MissingType)),
        };
        if l_numeric && r_numeric {
            return self.compare_and_reduce_numerics(left, right);
        }
        Err(TypeCheckFailure::Fault(TypeCheckFault::UnsupportedTypes))
    }

    /// Checks binary operation `id`: both sides, that each can be an operand,
    /// and the type they come to, which is given to the operation and its operands.
    fn tc_binop(&mut self, id: parser::ExprId, fuel: usize) -> (r: Result<TypeId, TypeCheckFailure>)
        requires
            0 <= id@ < old(self).ast().exprs.len(),
            old(self).ast().exprs[id@].0 is Binop,
        ensures
            final(self).expr_frame(old(self)),
            final(self).ret() == old(self).ret(),
            match old(self).ast().exprs[id@].0 {
                ExprNode::Binop { left, right, .. } => checked_type(
                    r,
                    final(self).rest(),
                    tc_binop(old(self).ast(), old(self).rest(), id@, left, right, fuel as nat),
                ),
                _ => false,
            },
        decreases fuel, 1int, 0int,
    {
        let (left, right) = match self.ctx.get_expr(id) {
            Ok(parser::Expr::Binop(b)) => (b.left, b.right),
            _ => {
                proof {
                    assert(false);
                }
                return Err(TypeCheckFailure::Fault(TypeCheckFault::MissingNode));
            },
        };
        let l = match self.tc_expr(left, fuel) {
            Ok(t) => t,
            Err(e) => return Err(e),
        };
        let r = match self.tc_expr(right, fuel) {
            Ok(t) => t,
            Err(e) => return Err(e),
        };
        let lexpr_ty = match self.ctx.get_type(l) {
            Some(t) => t.clone(),
            None => return Err(TypeCheckFailure::Fault(TypeCheckFault::MissingType)),
        };
        if !lexpr_ty.can_binop() {
            let mut m = String::from_str("Can not binop expr (left) ");
            push_str(&mut m, lexpr_ty.describe().as_str());
            push_str(&mut m, ".");
            return Err(TypeCheckFailure::Error(m));
        }
        let r_binop = match self.ctx.get_type(r) {
            Some(t) => t.can_binop(),
            None => return Err(TypeCheckFailure::Fault(TypeCheckFault::MissingType)),
        };
        if !r_binop {
            let mut m = String::from_str("Can not binop expr (right) ");
            push_str(&mut m, lexpr_ty.describe().as_str());
            push_str(&mut m, ".");
            return Err(TypeCheckFailure::Error(m));
        }
        let res_id = match self.compare_and_reduce_types(l, r) {
            Ok(t) => t,
            Err(e) => return Err(e),
        };
        self.ctx.new_expr_ty_ref(id, res_id);
        match self.give_type(left, res_id) {
            Ok(()) => {},
            Err(e) => return Err(e),
        }
        match self.give_type(right, res_id) {
            Ok(()) => {},
            Err(e) => return Err(e),
        }
        Ok(res_id)
    }

    /// Checks expression `id` and gives its type, which is recorded for it.
    /// A call of a function whose type has no return type gives the fault
    /// `NoReturnType`: that type is known only once the callee has been
    /// checked, so that input is not left out by the precondition.
    #[verifier::loop_isolation(false)]
    fn tc_expr(&mut self, id: parser::ExprId, fuel: usize) -> (r: Result<TypeId, TypeCheckFailure>)
        ensures
            final(self).expr_frame(old(self)),
            final(self).ret() == old(self).ret(),
            checked_type(r, final(self).rest(), tc_expr(old(self).ast(), old(self).rest(), id@, fuel as nat)),
        decreases fuel, 0int, 0int,
    {
        let expr = match self.ctx.get_expr(id) {
            Ok(e) => e.clone(),
            Err(_) => return Err(TypeCheckFailure::Fault(TypeCheckFault::MissingNode)),
        };
        if fuel == 0 {
            return Err(TypeCheckFailure::Fault(TypeCheckFault::MalformedTree));
        }
        match expr {
            parser::Expr::Binop(_) => {
                let type_id = match self.tc_binop(id, fuel - 1) {
                    Ok(t) => t,
                    Err(e) => return Err(e),
                };
                self.ctx.new_expr_ty_ref(id, type_id);
                Ok(type_id)
            },
            parser::Expr::Number(n) => {
                if contains_char(n.str.as_str(), '.') {
                    let type_id = self.ctx.intern_type(Type::FloatLiteral);
                    self.ctx.new_expr_ty_ref(id, type_id);
                    Ok(type_id)
                } else {
                    let type_id = self.ctx.intern_type(Type::IntLiteral);
                    self.ctx.new_expr_ty_ref(id, type_id);
                    Ok(type_id)
                }
            },
            parser::Expr::Symbol(_) => {
                let symid = match self.ctx.find_expr_ref(id) {
                    Some(s) => s,
                    None => return Err(TypeCheckFailure::Fault(TypeCheckFault::MissingRef)),
                };
                let ty = match self.ctx.get_object(symid) {
                    Some(o) => o.ty,
                    None => return Err(TypeCheckFailure::Fault(TypeCheckFault::MissingObject)),
                };
                let ty = match ty {
                    Some(t) => t,
                    None => return Err(TypeCheckFailure::Error(String::from_str("No type in object"))),
                };
                self.ctx.new_expr_ty_ref(id, ty);
                Ok(ty)
            },
            parser::Expr::FnCall(fncall) => {
                let target_id = match self.tc_expr(fncall.target, fuel - 1) {
                    Ok(t) => t,
                    Err(e) => return Err(e),
                };
                let f = match self.ctx.get_type(target_id) {
                    Some(t) => match t.get_fn() {
                        Ok(f) => f.clone(),
                        Err(m) => return Err(TypeCheckFailure::Error(m)),
                    },
                    None => return Err(TypeCheckFailure::Fault(TypeCheckFault::MissingType)),
                };
                if f.args.len() != fncall.args.len() {
                    let mut m = String::from_str("fn call args don't match expected args: ");
                    push_decimal(&mut m, f.args.len());
                    push_str(&mut m, ":");
                    push_decimal(&mut m, fncall.args.len());
                    return Err(TypeCheckFailure::Error(m));
                }
                let ghost ast = self.ast();
                let ghost params = f@.args;
                let ghost args = parser::ids_view(fncall.args@);
                let ghost total = tc_args(ast, self.rest(), params, args, 0, (fuel - 1) as nat);
                let mut i: usize = 0;
                while i < f.args.len()
                    invariant
                        self.expr_frame(old(self)),
                        self.ret() == old(self).ret(),
                        i <= f.args@.len(),
                        f.args@.len() == fncall.args@.len(),
                        params == f@.args,
                        total == tc_args(ast, self.rest(), params, args, i as int, (fuel - 1) as nat),
                    decreases f.args@.len() - i,
                {
                    let farg_ty = f.args[i].ty;
                    let carg = fncall.args[i];
                    let carg_ty = match self.tc_expr(carg, fuel - 1) {
                        Ok(t) => t,
                        Err(e) => return Err(e),
                    };
                    let r = match self.compare_and_reduce_types(farg_ty, carg_ty) {
                        Ok(t) => t,
                        Err(e) => return Err(e),
                    };
                    match self.give_type(carg, r) {
                        Ok(()) => {},
                        Err(e) => return Err(e),
                    }
                    i += 1;
                }
                match f.ret_ty {
                    Some(r) => {
                        self.ctx.new_expr_ty_ref(id, r);
                        Ok(r)
                    },
                    None => Err(TypeCheckFailure::Fault(TypeCheckFault::NoReturnType)),
                }
            },
            _ => Err(TypeCheckFailure::Fault(TypeCheckFault::UnsupportedExpression)),
        }
    }

    /// Checks `return ret` against the return type of the function being checked.
    fn tc_ret(&mut self, ret: &parser::ExprId) -> (r: Result<(), TypeCheckFailure>)
        ensures
            final(self).expr_frame(old(self)),
            final(self).ret() == old(self).ret(),
            checked(r, final(self).rest(), tc_ret(old(self).ast(), old(self).rest(), old(self).ret(), ret@)),
    {
        let ty = match self.check_expr(*ret) {
            Ok(t) => t,
            Err(e) => return Err(e),
        };
        let ret_ty = match self.current_fn_ret_type {
            Some(t) => t,
            None => return Err(TypeCheckFailure::Error(String::from_str("return expr for no expeced return type"))),
        };
        match self.compare_and_reduce_types(ty, ret_ty) {
            Ok(r) => self.give_type(*ret, r),
            Err(TypeCheckFailure::Error(why)) => {
                let mut m = String::from_str("return expr type (");
                symbols::push_type_id(&mut m, ty);
                push_str(&mut m, ") isn't the same as expected return type (");
                symbols::push_type_id(&mut m, ret_ty);
                push_str(&mut m, ") (");
                push_str(&mut m, why.as_str());
                push_str(&mut m, ").");
                Err(TypeCheckFailure::Error(m))
            },
            Err(TypeCheckFailure::Fault(f)) => Err(TypeCheckFailure::Fault(f)),
        }
    }

    /// Checks the condition `cond` of an `if`, which must be numeric.
    fn tc_cond(&mut self, cond: parser::ExprId) -> (r: Result<(), TypeCheckFailure>)
        ensures
            final(self).expr_frame(old(self)),
            final(self).ret() == old(self).ret(),
            checked(r, final(self).rest(), tc_cond(old(self).ast(), old(self).rest(), cond@)),
    {
        let cond_id = match self.check_expr(cond) {
            Ok(t) => t,
            Err(e) => return Err(e),
        };
        let is_cond = match self.ctx.get_type(cond_id) {
            Some(t) => t.is_cond(),
            None => return Err(TypeCheckFailure::Fault(TypeCheckFault::MissingType)),
        };
        if !is_cond {
            return Err(TypeCheckFailure::Fault(TypeCheckFault::NotCondition));
        }
        Ok(())
    }

    /// Checks statement `id`.
    #[verifier::loop_isolation(false)]
    fn tc_stmt(&mut self, id: parser::StmtId, fuel: usize) -> (r: Result<(), TypeCheckFailure>)
        ensures
            final(self).frame(old(self)),
            final(self).ret() == old(self).ret(),
            checked(r, final(self).rest(), tc_stmt(old(self).ast(), old(self).rest(), old(self).ret(), id@, fuel as nat)),
            forall|i: int|
                0 <= i < old(self).rest().objects.len() && #[trigger] final(self).rest().objects[i]
                    != old(self).rest().objects[i] ==> declared_within(
                    old(self).ast(),
                    old(self).rest().vardec_refs,
                    id@,
                    fuel as nat,
                    i,
                ),
        decreases fuel, 0int, 0int,
    {
        let stmt = match self.ctx.get_stmt(id) {
            Ok(s) => s.clone(),
            Err(_) => return Err(TypeCheckFailure::Fault(TypeCheckFault::MissingNode)),
        };
        if fuel == 0 {
            return Err(TypeCheckFailure::Fault(TypeCheckFault::MalformedTree));
        }
        match &stmt {
            parser::Stmt::Return(ret) => self.tc_ret(ret),
            parser::Stmt::Expr(e) => match self.check_expr(*e) {
                Ok(_) => Ok(()),
                Err(e) => Err(e),
            },
            parser::Stmt::IfStmt(s) => {
                let ghost ast = self.ast();
                let ghost refs = self.rest().vardec_refs;
                let ghost objs = self.rest().objects;
                let ghost alts = parser::alts_view(s.alt@);
                let ghost f = (fuel - 1) as nat;
                let ghost else_view = parser::opt_block_view(s.else_block);
                proof {
                    assert(ast.stmts[id@].0 == StmtNode::If {
                        cond: s.cond@,
                        block: s.block@,
                        alts: alts,
                        else_block: else_view,
                    });
                }
                match self.tc_cond(s.cond) {
                    Ok(()) => {},
                    Err(e) => return Err(e),
                }
                let res = self.tc_block(&s.block, fuel - 1);
                proof {
                    assert forall|i: int|
                        0 <= i < objs.len() && #[trigger] self.rest().objects[i] != objs[i] implies declared_within(
                            ast,
                            refs,
                            id@,
                            fuel as nat,
                            i,
                        ) by {
                        assert(declared_in_if(ast, refs, s.block@, alts, else_view, f, i));
                    }
                }
                match res {
                    Ok(()) => {},
                    Err(e) => return Err(e),
                }
                let ghost total = tc_alts(ast, self.rest(), self.ret(), alts, 0, (fuel - 1) as nat);
                let mut k: usize = 0;
                while k < s.alt.len()
                    invariant
                        self.frame(old(self)),
                        self.ret() == old(self).ret(),
                        k <= s.alt@.len(),
                        total == tc_alts(ast, self.rest(), self.ret(), alts, k as int, (fuel - 1) as nat),
                        forall|i: int|
                            0 <= i < objs.len() && #[trigger] self.rest().objects[i] != objs[i] ==> declared_within(
                                ast,
                                refs,
                                id@,
                                fuel as nat,
                                i,
                            ),
                    decreases s.alt@.len() - k,
                {
                    let alt = &s.alt[k];
                    match self.tc_cond(alt.cond) {
                        Ok(()) => {},
                        Err(e) => return Err(e),
                    }
                    let ghost before = self.rest().objects;
                    let res = self.tc_block(&alt.block, fuel - 1);
                    proof {
                        assert(alts.len() == s.alt@.len());
                        assert(alts[k as int].1 == alt.block@);
                        assert forall|i: int|
                            0 <= i < objs.len() && #[trigger] self.rest().objects[i] != objs[i] implies declared_within(
                                ast,
                                refs,
                                id@,
                                fuel as nat,
                                i,
                            ) by {
                            if before[i] == objs[i] {
                                lemma_declared_in_alts(ast, refs, alts, 0, k as int, f, i);
                                assert(declared_in_if(ast, refs, s.block@, alts, else_view, f, i));
                            }
                        }
                    }
                    match res {
                        Ok(()) => {},
                        Err(e) => return Err(e),
                    }
                    k += 1;
                }
                match &s.else_block {
                    Some(b) => {
                        let ghost before = self.rest().objects;
                        let res = self.tc_block(b, fuel - 1);
                        proof {
                            assert(else_view == Some(b@));
                            assert forall|i: int|
                                0 <= i < objs.len() && #[trigger] self.rest().objects[i] != objs[i] implies declared_within(
                                    ast,
                                    refs,
                                    id@,
                                    fuel as nat,
                                    i,
                                ) by {
                                if before[i] == objs[i] {
                                    assert(declared_in_if(ast, refs, s.block@, alts, else_view, f, i));
                                }
                            }
                        }
                        res
                    },
                    None => Ok(()),
                }
            },
            parser::Stmt::Assignment(a) => {
                let target_ty = match self.check_expr(a.left) {
                    Ok(t) => t,
                    Err(e) => return Err(e),
                };
                let e_ty = match self.check_expr(a.right) {
                    Ok(t) => t,
                    Err(e) => return Err(e),
                };
                let res_ty = match self.compare_and_reduce_types(target_ty, e_ty) {
                    Ok(t) => t,
                    Err(e) => return Err(e),
                };
                match self.give_type(a.left, res_ty) {
                    Ok(()) => {},
                    Err(e) => return Err(e),
                }
                self.give_type(a.right, res_ty)
            },
            parser::Stmt::VarDec(vardec) => {
                let obj_id = match self.ctx.get_vardec_ref(id) {
                    Some(o) => o,
                    None => return Err(TypeCheckFailure::Fault(TypeCheckFault::MissingRef)),
                };
                let obj = match self.ctx.get_object(obj_id) {
                    Some(o) => o.clone(),
                    None => return Err(TypeCheckFailure::Fault(TypeCheckFault::MissingObject)),
                };
                if let Some(expr) = vardec.val {
                    let expr_ty = match self.check_expr(expr) {
                        Ok(t) => t,
                        Err(e) => return Err(e),
                    };
                    match obj.ty {
                        Some(ty) => {
                            let rt = match self.compare_and_reduce_types(ty, expr_ty) {
                                Ok(t) => t,
                                Err(e) => return Err(e),
                            };
                            match self.give_type(expr, rt) {
                                Ok(()) => {},
                                Err(e) => return Err(e),
                            }
                        },
                        None => {
                            let new_obj = symbols::Object { name: obj.name, ty: Some(expr_ty) };
                            self.ctx.update_object(obj_id, new_obj);
                        },
                    }
                }
                Ok(())
            },
        }
    }

    /// Checks the statements of `block`, in order.
    #[verifier::loop_isolation(false)]
    fn tc_block(&mut self, block: &parser::Block, fuel: usize) -> (r: Result<(), TypeCheckFailure>)
        ensures
            final(self).frame(old(self)),
            final(self).ret() == old(self).ret(),
            checked(
                r,
                final(self).rest(),
                tc_block(old(self).ast(), old(self).rest(), old(self).ret(), block@, 0, fuel as nat),
            ),
            forall|i: int|
                0 <= i < old(self).rest().objects.len() && #[trigger] final(self).rest().objects[i]
                    != old(self).rest().objects[i] ==> declared_in_block(
                    old(self).ast(),
                    old(self).rest().vardec_refs,
                    block@,
                    0,
                    fuel as nat,
                    i,
                ),
        decreases fuel, 1int, 0int,
    {
        let ghost ast = self.ast();
        let ghost refs = self.rest().vardec_refs;
        let ghost objs = self.rest().objects;
        let ghost total = tc_block(ast, self.rest(), self.ret(), block@, 0, fuel as nat);
        let mut k: usize = 0;
        while k < block.stmts.len()
            invariant
                self.frame(old(self)),
                self.ret() == old(self).ret(),
                k <= block.stmts@.len(),
                forall|i: int|
                    0 <= i < objs.len() && #[trigger] self.rest().objects[i] != objs[i] ==> declared_in_block(
                        ast,
                        refs,
                        block@,
                        0,
                        fuel as nat,
                        i,
                    ),
                total == tc_block(ast, self.rest(), self.ret(), block@, k as int, fuel as nat),
            decreases block.stmts@.len() - k,
        {
            let sid = block.stmts[k];
            let ghost before = self.rest().objects;
            assert(forall|i: int|
                0 <= i < objs.len() && #[trigger] before[i] != objs[i] ==> declared_in_block(
                    ast,
                    refs,
                    block@,
                    0,
                    fuel as nat,
                    i,
                ));
            let res = self.tc_stmt(sid, fuel);
            proof {
                assert(sid@ == block@[k as int]);
                assert(block@.len() == block.stmts@.len());
                assert forall|i: int|
                    0 <= i < objs.len() && #[trigger] self.rest().objects[i] != objs[i] implies declared_in_block(
                        ast,
                        refs,
                        block@,
                        0,
                        fuel as nat,
                        i,
                    ) by {
                    if before[i] == objs[i] {
                        lemma_declared_in_block(ast, refs, block@, 0, k as int, fuel as nat, i);
                    }
                }
            }
            match res {
                Ok(()) => {},
                Err(e) => return Err(e),
            }
            k += 1;
        }
        Ok(())
    }

    /// Checks the body of function declaration `id` against the return type
    /// of the function type that resolution gave it.
    fn tc_fndec(&mut self, id: parser::ItemId) -> (r: Result<(), TypeCheckFailure>)
        ensures
            final(self).frame(old(self)),
            r is Ok ==> final(self).ret() == old(self).ret(),
            checked(r, final(self).rest(), tc_fndec(old(self).ast(), old(self).rest(), id@)),
    {
        let body = match self.ctx.get_item(id) {
            Ok(parser::Item::FnDec(fndec)) => parser::clone_opt_block(&fndec.body),
            Ok(_) => return Err(TypeCheckFailure::Fault(TypeCheckFault::UnsupportedItem)),
            Err(_) => return Err(TypeCheckFailure::Fault(TypeCheckFault::MissingNode)),
        };
        let prev_fn_ctx = self.current_fn_ret_type;
        let sym_id = match self.ctx.find_item_ref(id) {
            Some(s) => s,
            None => return Err(TypeCheckFailure::Fault(TypeCheckFault::MissingRef)),
        };
        let fn_sym_ty = match self.ctx.get_object(sym_id) {
            Some(o) => o.ty,
            None => return Err(TypeCheckFailure::Fault(TypeCheckFault::MissingObject)),
        };
        let fn_ty_id = match fn_sym_ty {
            Some(t) => t,
            None => return Err(TypeCheckFailure::Fault(TypeCheckFault::UntypedFunction)),
        };
        let ret_ty = match self.ctx.get_type(fn_ty_id) {
            Some(t) => match t.get_fn() {
                Ok(f) => f.ret_ty,
                Err(_) => return Err(TypeCheckFailure::Fault(TypeCheckFault::NotFunctionType)),
            },
            None => return Err(TypeCheckFailure::Fault(TypeCheckFault::MissingType)),
        };
        self.current_fn_ret_type = ret_ty;
        let body = match body {
            Some(b) => b,
            None => return Err(TypeCheckFailure::Fault(TypeCheckFault::MissingBody)),
        };
        let stmt_fuel = self.ctx.stmt_count();
        match self.tc_block(&body, stmt_fuel) {
            Ok(()) => {},
            Err(e) => return Err(e),
        }
        self.current_fn_ret_type = prev_fn_ctx;
        Ok(())
    }

    /// Checks item `id`.
    fn tc_item(&mut self, id: parser::ItemId) -> (r: Result<(), TypeCheckFailure>)
        ensures
            final(self).frame(old(self)),
            r is Ok ==> final(self).ret() == old(self).ret(),
            checked(r, final(self).rest(), tc_item(old(self).ast(), old(self).rest(), id@)),
    {
        let is_fn = match self.ctx.get_item(id) {
            Ok(parser::Item::FnDec(_)) => true,
            Ok(_) => false,
            Err(_) => return Err(TypeCheckFailure::Fault(TypeCheckFault::MissingNode)),
        };
        if is_fn {
            self.tc_fndec(id)
        } else {
            Err(TypeCheckFailure::Fault(TypeCheckFault::UnsupportedItem))
        }
    }

    /// Checks each item of module `moduleid` in turn.
    #[verifier::loop_isolation(false)]
    fn tc_module(&mut self, moduleid: parser::ModId) -> (r: Result<(), TypeCheckFailure>)
        ensures
            final(self).frame(old(self)),
            checked(r, final(self).rest(), tc_module(old(self).ast(), old(self).rest(), moduleid@)),
    {
        let module = match self.ctx.get_module(moduleid) {
            Ok(m) => m.clone(),
            Err(_) => return Err(TypeCheckFailure::Fault(TypeCheckFault::MissingNode)),
        };
        let items = module.items;
        let ghost ast = self.ast();
        let ghost ids = parser::item_ids_view(items@);
        let ghost total = tc_items(ast, self.rest(), ids, 0);
        let mut k: usize = 0;
        while k < items.len()
            invariant
                self.frame(old(self)),
                k <= items@.len(),
                total == tc_items(ast, self.rest(), ids, k as int),
            decreases items@.len() - k,
        {
            match self.tc_item(items[k]) {
                Ok(()) => {},
                Err(e) => return Err(e),
            }
            k += 1;
        }
        Ok(())
    }

    /// Type checks module `moduleid` of `ctx`, recording in `ctx` the type of
    /// each expression checked and the type that each declaration without one
    /// takes from its value. Fails with a type error, or with a fault on the
    /// inputs it does not handle.
    pub fn try_type_check(ctx: &mut Context, moduleid: parser::ModId) -> (r: Result<(), TypeCheckFailure>)
        ensures
            rest_frame(final(ctx).ast(), final(ctx).rest(), old(ctx).ast(), old(ctx).rest()),
            checked(r, final(ctx).rest(), tc_module(old(ctx).ast(), old(ctx).rest(), moduleid@)),
    {
        let mut taken = Context::new();
        std::mem::swap(ctx, &mut taken);
        let mut tc = TypeChecker { ctx: taken, current_fn_ret_type: None };
        let r = tc.tc_module(moduleid);
        *ctx = tc.ctx;
        r
    }

    /// Type checks module `moduleid` of `ctx`, on a module that type checking
    /// handles; the error is the message of what was wrong.
    pub fn type_check(ctx: &mut Context, moduleid: parser::ModId) -> (r: Result<(), String>)
        requires
            !(tc_module(old(ctx).ast(), old(ctx).rest(), moduleid@) matches Err(
                TypeCheckFailureView::Fault(_),
            )),
        ensures
            rest_frame(final(ctx).ast(), final(ctx).rest(), old(ctx).ast(), old(ctx).rest()),
            match tc_module(old(ctx).ast(), old(ctx).rest(), moduleid@) {
                Ok(rest) => r is Ok && final(ctx).rest() == rest,
                Err(f) => r matches Err(e) && f == TypeCheckFailureView::Error(e@),
            },
    {
        match Self::try_type_check(ctx, moduleid) {
            Ok(()) => Ok(()),
            Err(TypeCheckFailure::Error(e)) => Err(e),
            Err(TypeCheckFailure::Fault(_)) => {
                proof {
                    assert(false);
                }
                Err(String::new())
            },
        }
    }
}

} // verus!
