use vstd::prelude::*;

use crate::lexer::{self, Keyword, Span, Token, TokenView};
use crate::resolver::Context;
use crate::text::push_char;

verus! {

// ---------------------------------------------------------------------------
// Node ids
// ---------------------------------------------------------------------------

/// The id of a statement in the context's statement arena.
#[derive(Copy, Clone, Debug, Eq, Hash, PartialEq)]
pub struct StmtId(usize);

impl View for StmtId {
    type V = int;

    closed spec fn view(&self) -> int {
        self.0 as int
    }
}

impl StmtId {
    pub fn new(n: usize) -> (r: Self)
        ensures
            r@ == n,
    {
        Self(n)
    }

    pub fn id(&self) -> (r: usize)
        ensures
            r == self@,
    {
        self.0
    }
}

/// The id of an expression in the context's expression arena.
#[derive(Copy, Clone, Debug, Eq, Hash, PartialEq)]
pub struct ExprId(usize);

impl View for ExprId {
    type V = int;

    closed spec fn view(&self) -> int {
        self.0 as int
    }
}

impl ExprId {
    pub fn new(n: usize) -> (r: Self)
        ensures
            r@ == n,
    {
        Self(n)
    }

    pub fn id(&self) -> (r: usize)
        ensures
            r == self@,
    {
        self.0
    }
}

/// The id of a module in the context's module arena.
#[derive(Copy, Clone, Debug, Eq, Hash, PartialEq)]
pub struct ModId(usize);

impl View for ModId {
    type V = int;

    closed spec fn view(&self) -> int {
        self.0 as int
    }
}

impl ModId {
    pub fn new(n: usize) -> (r: Self)
        ensures
            r@ == n,
    {
        Self(n)
    }

    pub fn id(&self) -> (r: usize)
        ensures
            r == self@,
    {
        self.0
    }
}

/// The id of an item in the context's item arena.
#[derive(Copy, Clone, Debug, Eq, Hash, PartialEq)]
pub struct ItemId(usize);

impl View for ItemId {
    type V = int;

    closed spec fn view(&self) -> int {
        self.0 as int
    }
}

impl ItemId {
    pub fn new(n: usize) -> (r: Self)
        ensures
            r@ == n,
    {
        Self(n)
    }

    pub fn id(&self) -> (r: usize)
        ensures
            r == self@,
    {
        self.0
    }
}

pub broadcast proof fn lemma_stmt_id_bounds(s: StmtId)
    ensures
        0 <= #[trigger] s@ <= usize::MAX,
{
}

pub broadcast proof fn lemma_expr_id_bounds(e: ExprId)
    ensures
        0 <= #[trigger] e@ <= usize::MAX,
{
}

pub broadcast proof fn lemma_mod_id_bounds(m: ModId)
    ensures
        0 <= #[trigger] m@ <= usize::MAX,
{
}

pub broadcast proof fn lemma_item_id_bounds(i: ItemId)
    ensures
        0 <= #[trigger] i@ <= usize::MAX,
{
}

pub broadcast group group_id_bounds {
    lemma_stmt_id_bounds,
    lemma_expr_id_bounds,
    lemma_mod_id_bounds,
    lemma_item_id_bounds,
}

/// Two statement ids are the same id exactly when they have the same number.
pub proof fn lemma_stmt_id_injective(a: StmtId, b: StmtId)
    ensures
        a@ == b@ <==> a == b,
{
}

/// Two expression ids are the same id exactly when they have the same number.
pub proof fn lemma_expr_id_injective(a: ExprId, b: ExprId)
    ensures
        a@ == b@ <==> a == b,
{
}

/// Two module ids are the same id exactly when they have the same number.
pub proof fn lemma_mod_id_injective(a: ModId, b: ModId)
    ensures
        a@ == b@ <==> a == b,
{
}

/// Two item ids are the same id exactly when they have the same number.
pub proof fn lemma_item_id_injective(a: ItemId, b: ItemId)
    ensures
        a@ == b@ <==> a == b,
{
}

// ---------------------------------------------------------------------------
// The syntax tree
// ---------------------------------------------------------------------------

#[derive(Clone, Copy, PartialEq, Eq, Structural, Debug)]
pub enum BinopKind {
    Add,
    Sub,
    Mlt,
    Div,
    Eq,
    Ne,
    Le,
    Ge,
    Gt,
    Lt,
}

#[derive(Clone, Copy, PartialEq, Eq, Structural, Debug)]
pub enum AssignmentKind {
    Assign,
    AddAssign,
    SubAssign,
    MltAssign,
    DivAssign,
}

pub struct Assignment {
    pub left: ExprId,
    pub right: ExprId,
    pub kind: AssignmentKind,
}

pub struct StructField {
    pub name: String,
    pub ty: TypeSpecifier,
}

pub struct Binop {
    pub left: ExprId,
    pub right: ExprId,
    pub kind: BinopKind,
}

pub enum TypeSpecifier {
    Base(String),
    Pointer(Box<TypeSpecifier>),
}

/// A type as written: a name, or `*` before a type.
pub enum TypeTree {
    Base(Seq<char>),
    Pointer(Box<TypeTree>),
}

impl View for TypeSpecifier {
    type V = TypeTree;

    open spec fn view(&self) -> TypeTree
        decreases self,
    {
        match self {
            TypeSpecifier::Base(s) => TypeTree::Base(s@),
            TypeSpecifier::Pointer(b) => TypeTree::Pointer(Box::new((**b).view())),
        }
    }
}

/// The name of a type: its base name with one `*` in front per pointer.
pub open spec fn written_type_name(t: TypeTree) -> Seq<char>
    decreases t,
{
    match t {
        TypeTree::Base(s) => s,
        TypeTree::Pointer(b) => seq!['*'] + written_type_name(*b),
    }
}

impl TypeSpecifier {
    pub fn name(&self) -> (r: String)
        ensures
            r@ == written_type_name(self@),
        decreases self,
    {
        match self {
            Self::Base(s) => s.clone(),
            Self::Pointer(b) => {
                let mut r = String::new();
                push_char(&mut r, '*');
                let inner = b.name();
                r.append(inner.as_str());
                r
            },
        }
    }
}

pub struct Symbol {
    pub symbol: String,
}

pub struct IfElseAltCond {
    pub cond: ExprId,
    pub block: Block,
}

pub struct VarDec {
    /// The name declared.
    pub s: String,
    /// The declared type, if any; else it is inferred.
    pub ty: Option<TypeSpecifier>,
    /// The initial value, if any.
    pub val: Option<ExprId>,
}

pub struct Number {
    pub str: String,
}

pub struct FnCall {
    pub target: ExprId,
    pub args: Vec<ExprId>,
}

pub enum Expr {
    Binop(Binop),
    Symbol(Symbol),
    Number(Number),
    FnCall(FnCall),
    StructLit(StructLit),
    FieldAccess(FieldAccess),
}

impl Expr {
    pub fn is_lvalue(&self) -> (r: bool)
        ensures
            r == (self is Symbol),
    {
        match self {
            Expr::Symbol(_) => true,
            _ => false,
        }
    }
}

pub struct FieldAccess {
    pub target: ExprId,
    pub field_name: String,
}

pub struct StructLit {
    pub ty: String,
    pub fields: Vec<StructLitField>,
}

pub struct StructLitField {
    pub name: String,
    pub expr: ExprId,
}

pub struct FnDecArg {
    pub name: String,
    pub ty: TypeSpecifier,
}

pub struct FnDec {
    pub name: String,
    pub args: Vec<FnDecArg>,
    pub ret_ty: Option<TypeSpecifier>,
    pub body: Option<Block>,
}

pub struct IfStmt {
    pub cond: ExprId,
    pub block: Block,
    pub alt: Vec<IfElseAltCond>,
    pub else_block: Option<Block>,
}

pub enum Stmt {
    IfStmt(IfStmt),
    VarDec(VarDec),
    Expr(ExprId),
    Assignment(Assignment),
    Return(ExprId),
}

pub struct Block {
    pub stmts: Vec<StmtId>,
}

pub enum Item {
    FnDec(FnDec),
    StructDec(StructDec),
}

pub struct StructDec {
    pub name: String,
    pub fields: Vec<StructField>,
}

pub struct Module {
    pub items: Vec<ItemId>,
}

// ---------------------------------------------------------------------------
// Views of the nodes: strings as character sequences, ids as integers
// ---------------------------------------------------------------------------

pub enum ExprNode {
    Binop { left: int, right: int, kind: BinopKind },
    Symbol { name: Seq<char> },
    Number { text: Seq<char> },
    FnCall { target: int, args: Seq<int> },
    StructLit { ty: Seq<char>, fields: Seq<(Seq<char>, int)> },
    FieldAccess { target: int, field: Seq<char> },
}

pub enum StmtNode {
    If {
        cond: int,
        block: Seq<int>,
        alts: Seq<(int, Seq<int>)>,
        else_block: Option<Seq<int>>,
    },
    VarDec { name: Seq<char>, ty: Option<TypeTree>, val: Option<int> },
    Expr { expr: int },
    Assign { left: int, right: int, kind: AssignmentKind },
    Return { expr: int },
}

pub enum ItemNode {
    FnDec {
        name: Seq<char>,
        args: Seq<(Seq<char>, TypeTree)>,
        ret: Option<TypeTree>,
        body: Option<Seq<int>>,
    },
    StructDec { name: Seq<char>, fields: Seq<(Seq<char>, TypeTree)> },
}

pub open spec fn lit_fields_view(fields: Seq<StructLitField>) -> Seq<(Seq<char>, int)> {
    fields.map_values(|f: StructLitField| (f.name@, f.expr@))
}

pub open spec fn ids_view(ids: Seq<ExprId>) -> Seq<int> {
    ids.map_values(|e: ExprId| e@)
}

pub open spec fn stmt_ids_view(ids: Seq<StmtId>) -> Seq<int> {
    ids.map_values(|s: StmtId| s@)
}

pub open spec fn item_ids_view(ids: Seq<ItemId>) -> Seq<int> {
    ids.map_values(|s: ItemId| s@)
}

impl View for Block {
    type V = Seq<int>;

    open spec fn view(&self) -> Seq<int> {
        stmt_ids_view(self.stmts@)
    }
}

impl View for Expr {
    type V = ExprNode;

    open spec fn view(&self) -> ExprNode {
        match self {
            Expr::Binop(b) => ExprNode::Binop { left: b.left@, right: b.right@, kind: b.kind },
            Expr::Symbol(s) => ExprNode::Symbol { name: s.symbol@ },
            Expr::Number(n) => ExprNode::Number { text: n.str@ },
            Expr::FnCall(c) => ExprNode::FnCall { target: c.target@, args: ids_view(c.args@) },
            Expr::StructLit(l) => ExprNode::StructLit { ty: l.ty@, fields: lit_fields_view(l.fields@) },
            Expr::FieldAccess(f) => ExprNode::FieldAccess {
                target: f.target@,
                field: f.field_name@,
            },
        }
    }
}

pub open spec fn opt_type_view(t: Option<TypeSpecifier>) -> Option<TypeTree> {
    match t {
        Some(t) => Some(t@),
        None => None,
    }
}

pub open spec fn opt_block_view(b: Option<Block>) -> Option<Seq<int>> {
    match b {
        Some(b) => Some(b@),
        None => None,
    }
}

pub open spec fn opt_id_view(e: Option<ExprId>) -> Option<int> {
    match e {
        Some(e) => Some(e@),
        None => None,
    }
}

pub open spec fn alts_view(alts: Seq<IfElseAltCond>) -> Seq<(int, Seq<int>)> {
    alts.map_values(|a: IfElseAltCond| (a.cond@, a.block@))
}

impl View for Stmt {
    type V = StmtNode;

    open spec fn view(&self) -> StmtNode {
        match self {
            Stmt::IfStmt(s) => StmtNode::If {
                cond: s.cond@,
                block: s.block@,
                alts: alts_view(s.alt@),
                else_block: opt_block_view(s.else_block),
            },
            Stmt::VarDec(v) => StmtNode::VarDec {
                name: v.s@,
                ty: opt_type_view(v.ty),
                val: opt_id_view(v.val),
            },
            Stmt::Expr(e) => StmtNode::Expr { expr: e@ },
            Stmt::Assignment(a) => StmtNode::Assign { left: a.left@, right: a.right@, kind: a.kind },
            Stmt::Return(e) => StmtNode::Return { expr: e@ },
        }
    }
}

pub open spec fn args_view(args: Seq<FnDecArg>) -> Seq<(Seq<char>, TypeTree)> {
    args.map_values(|a: FnDecArg| (a.name@, a.ty@))
}

pub open spec fn fields_view(fields: Seq<StructField>) -> Seq<(Seq<char>, TypeTree)> {
    fields.map_values(|f: StructField| (f.name@, f.ty@))
}

impl View for Item {
    type V = ItemNode;

    open spec fn view(&self) -> ItemNode {
        match self {
            Item::FnDec(f) => ItemNode::FnDec {
                name: f.name@,
                args: args_view(f.args@),
                ret: opt_type_view(f.ret_ty),
                body: opt_block_view(f.body),
            },
            Item::StructDec(s) => ItemNode::StructDec { name: s.name@, fields: fields_view(s.fields@) },
        }
    }
}

impl View for Module {
    type V = Seq<int>;

    open spec fn view(&self) -> Seq<int> {
        item_ids_view(self.items@)
    }
}

/// The four node arenas of a context, each node with its span.
pub struct Ast {
    pub exprs: Seq<(ExprNode, Span)>,
    pub stmts: Seq<(StmtNode, Span)>,
    pub items: Seq<(ItemNode, Span)>,
    pub mods: Seq<(Seq<int>, Span)>,
}

/// `new` holds the items of `old`, at the same places, and maybe more after them.
pub open spec fn seq_grown<T>(new: Seq<T>, old: Seq<T>) -> bool {
    &&& old.len() <= new.len()
    &&& forall|i: int| 0 <= i < old.len() ==> #[trigger] new[i] == old[i]
}

/// Each arena of `new` holds the nodes of the same arena of `old`, under
/// the same ids, and maybe more after them.
pub open spec fn ast_grown(new: Ast, old: Ast) -> bool {
    &&& seq_grown(new.exprs, old.exprs)
    &&& seq_grown(new.stmts, old.stmts)
    &&& seq_grown(new.items, old.items)
    &&& seq_grown(new.mods, old.mods)
}

impl Ast {
    pub open spec fn with_expr(self, e: ExprNode, sp: Span) -> Ast {
        Ast { exprs: self.exprs.push((e, sp)), ..self }
    }

    pub open spec fn with_stmt(self, s: StmtNode, sp: Span) -> Ast {
        Ast { stmts: self.stmts.push((s, sp)), ..self }
    }

    pub open spec fn with_item(self, i: ItemNode, sp: Span) -> Ast {
        Ast { items: self.items.push((i, sp)), ..self }
    }

    pub open spec fn with_mod(self, m: Seq<int>, sp: Span) -> Ast {
        Ast { mods: self.mods.push((m, sp)), ..self }
    }
}


// ---------------------------------------------------------------------------
// Failures
// ---------------------------------------------------------------------------

pub enum ParserErr {
    Invalid(String),
    /// What was expected, and the token found instead.
    Expected(String, Token),
}

pub enum ParserErrView {
    Invalid(Seq<char>),
    Expected(Seq<char>, TokenView),
}

impl View for ParserErr {
    type V = ParserErrView;

    open spec fn view(&self) -> ParserErrView {
        match self {
            ParserErr::Invalid(s) => ParserErrView::Invalid(s@),
            ParserErr::Expected(s, t) => ParserErrView::Expected(s@, t@),
        }
    }
}

/// The inputs on which parsing cannot go on at all.
pub enum ParseFault {
    /// A span was asked of the end of the input.
    CurrentSpanAtEof,
    /// The span of the token before the current one was asked, and there is none.
    NoPreviousToken,
    /// The token before the current one is the end of the input.
    PreviousSpanAtEof,
    /// A function declaration without a body.
    NeedBody,
    /// `a : type` without `= value`.
    DeclarationWithoutValue,
    /// A declaration `a` followed by a symbol other than `:=` and `:`.
    UnexpectedDeclarationSymbol,
    /// A declaration `a` followed by no symbol.
    ExpectedDeclarationSymbol,
    /// A base type that is not a name.
    InvalidTypeAtomic,
    /// A type that starts with a symbol other than `*`.
    InvalidSymbolInType,
    /// A type that starts with neither a name nor a symbol.
    InvalidTypeStart,
    /// `(` expression, then this token instead of `)`.
    UnclosedParen(Token),
    /// A declaration at the top level of a module failed with this error.
    Unwrapped(ParserErr),
}

pub enum FaultView {
    CurrentSpanAtEof,
    NoPreviousToken,
    PreviousSpanAtEof,
    NeedBody,
    DeclarationWithoutValue,
    UnexpectedDeclarationSymbol,
    ExpectedDeclarationSymbol,
    InvalidTypeAtomic,
    InvalidSymbolInType,
    InvalidTypeStart,
    UnclosedParen(TokenView),
    Unwrapped(ParserErrView),
}

impl View for ParseFault {
    type V = FaultView;

    open spec fn view(&self) -> FaultView {
        match self {
            ParseFault::CurrentSpanAtEof => FaultView::CurrentSpanAtEof,
            ParseFault::NoPreviousToken => FaultView::NoPreviousToken,
            ParseFault::PreviousSpanAtEof => FaultView::PreviousSpanAtEof,
            ParseFault::NeedBody => FaultView::NeedBody,
            ParseFault::DeclarationWithoutValue => FaultView::DeclarationWithoutValue,
            ParseFault::UnexpectedDeclarationSymbol => FaultView::UnexpectedDeclarationSymbol,
            ParseFault::ExpectedDeclarationSymbol => FaultView::ExpectedDeclarationSymbol,
            ParseFault::InvalidTypeAtomic => FaultView::InvalidTypeAtomic,
            ParseFault::InvalidSymbolInType => FaultView::InvalidSymbolInType,
            ParseFault::InvalidTypeStart => FaultView::InvalidTypeStart,
            ParseFault::UnclosedParen(t) => FaultView::UnclosedParen(t@),
            ParseFault::Unwrapped(e) => FaultView::Unwrapped(e@),
        }
    }
}

/// Why parsing stopped: an error, or an input on which it cannot go on.
pub enum ParseFailure {
    Error(ParserErr),
    Fault(ParseFault),
}

pub enum FailureView {
    Error(ParserErrView),
    Fault(FaultView),
}

impl View for ParseFailure {
    type V = FailureView;

    open spec fn view(&self) -> FailureView {
        match self {
            ParseFailure::Error(e) => FailureView::Error(e@),
            ParseFailure::Fault(f) => FailureView::Fault(f@),
        }
    }
}

// ---------------------------------------------------------------------------
// The grammar, over the token sequence
// ---------------------------------------------------------------------------

/// The token at position `p`; the end of the input past the last token.
pub open spec fn tok_at(toks: Seq<TokenView>, p: int) -> TokenView {
    if 0 <= p < toks.len() {
        toks[p]
    } else {
        TokenView::EOF
    }
}

/// The token after position `p`.
pub open spec fn peek_at(toks: Seq<TokenView>, p: int) -> TokenView {
    if 0 <= p && p + 1 < toks.len() {
        toks[p + 1]
    } else {
        TokenView::EOF
    }
}

pub open spec fn span_of(t: TokenView) -> Option<Span> {
    match t {
        TokenView::Ident(_, sp) => Some(sp),
        TokenView::Num(_, sp) => Some(sp),
        TokenView::Keyword(_, sp) => Some(sp),
        TokenView::Symbol(_, sp) => Some(sp),
        TokenView::EOF => None,
    }
}

pub open spec fn sym(t: TokenView) -> Option<Seq<char>> {
    lexer::symbol_of(t)
}

pub open spec fn is_kw_tok(t: TokenView, kw: Keyword) -> bool {
    t matches TokenView::Keyword(k, _) && k == kw
}

/// How each binary operator is written.
pub open spec fn binop_symbol(k: BinopKind) -> Seq<char> {
    match k {
        BinopKind::Add => seq!['+'],
        BinopKind::Sub => seq!['-'],
        BinopKind::Mlt => seq!['*'],
        BinopKind::Div => seq!['/'],
        BinopKind::Lt => seq!['<'],
        BinopKind::Gt => seq!['>'],
        BinopKind::Eq => seq!['=', '='],
        BinopKind::Ne => seq!['!', '='],
        BinopKind::Le => seq!['<', '='],
        BinopKind::Ge => seq!['>', '='],
    }
}

/// A token stands for binary operator `k` exactly when it is the symbol
/// that writes `k`.
pub proof fn law_binop_token_is_its_symbol(t: TokenView, k: BinopKind)
    ensures
        binop_kind_of(t) == Some(k) <==> sym(t) == Some(binop_symbol(k)),
{
    if let Some(s) = sym(t) {
        if s.len() == 1 {
            assert(s =~= seq![s[0]]);
        } else if s.len() == 2 {
            assert(s =~= seq![s[0], s[1]]);
        }
    }
}

/// Two names with an operator between them, `x op y;`, read as an
/// expression: a name node for each side, then one operator node over the
/// two whose kind is the operator written; the `;` is left unread.
pub proof fn law_parse_binop_kind(
    toks: Seq<TokenView>,
    p: int,
    a: Ast,
    sl: bool,
    k: BinopKind,
    x: Seq<char>,
    y: Seq<char>,
    sx: Span,
    so: Span,
    sy: Span,
    sc: Span,
)
    requires
        0 <= p,
        p + 3 < toks.len(),
        toks[p] == TokenView::Ident(x, sx),
        toks[p + 1] == TokenView::Symbol(binop_symbol(k), so),
        toks[p + 2] == TokenView::Ident(y, sy),
        toks[p + 3] == TokenView::Symbol(seq![';'], sc),
    ensures
        ({
            let n = a.exprs.len() as int;
            let a2 = a.with_expr(ExprNode::Symbol { name: x }, sx).with_expr(ExprNode::Symbol { name: y }, sy);
            sp_expr(toks, p, a, sl) == Parsed::Read {
                value: n + 2,
                pos: p + 3,
                ast: a2.with_expr(ExprNode::Binop { left: n, right: n + 1, kind: k }, sx),
            }
        }),
{
    let n = a.exprs.len() as int;
    let a1 = a.with_expr(ExprNode::Symbol { name: x }, sx);
    let a2 = a1.with_expr(ExprNode::Symbol { name: y }, sy);
    assert(binop_symbol(k)[0] != '{' && binop_symbol(k)[0] != '.' && binop_symbol(k)[0] != '(');
    assert(binop_symbol(k) != seq!['{']);
    assert(binop_symbol(k) != seq!['.']);
    assert(binop_symbol(k) != seq!['(']);
    assert(seq![';'] != seq!['{']) by {
        assert(seq![';'][0] != seq!['{'][0]);
    }
    assert(seq![';'] != seq!['.']) by {
        assert(seq![';'][0] != seq!['.'][0]);
    }
    assert(seq![';'] != seq!['(']) by {
        assert(seq![';'][0] != seq!['('][0]);
    }
    law_binop_token_is_its_symbol(toks[p + 1], k);
    law_binop_token_is_its_symbol(toks[p + 3], k);
    assert(binop_kind_of(toks[p + 3]) is None) by {
        if let Some(k2) = binop_kind_of(toks[p + 3]) {
            law_binop_token_is_its_symbol(toks[p + 3], k2);
            assert(binop_symbol(k2)[0] != ';');
            assert(seq![';'][0] == ';');
        }
    }
    assert(sp_primary(toks, p, a, sl) == Parsed::Read { value: n, pos: p + 1, ast: a1 });
    assert(sp_postfix_loop(toks, p + 1, a1, sl, n, sx) == Parsed::Read { value: n, pos: p + 1, ast: a1 });
    assert(sp_postfix(toks, p, a, sl) == Parsed::Read { value: n, pos: p + 1, ast: a1 });
    assert(sp_primary(toks, p + 2, a1, sl) == Parsed::Read { value: n + 1, pos: p + 3, ast: a2 });
    assert(sp_postfix_loop(toks, p + 3, a2, sl, n + 1, sy) == Parsed::Read { value: n + 1, pos: p + 3, ast: a2 });
    assert(sp_postfix(toks, p + 2, a1, sl) == Parsed::Read { value: n + 1, pos: p + 3, ast: a2 });
    assert(sp_binop(toks, p + 2, a1, sl) == Parsed::Read { value: n + 1, pos: p + 3, ast: a2 });
    assert(sp_expr(toks, p + 2, a1, sl) == Parsed::Read { value: n + 1, pos: p + 3, ast: a2 });
    assert(sp_binop(toks, p, a, sl) == Parsed::Read {
        value: n + 2,
        pos: p + 3,
        ast: a2.with_expr(ExprNode::Binop { left: n, right: n + 1, kind: k }, sx),
    });
}

/// The binary operator that a token stands for.
pub open spec fn binop_kind_of(t: TokenView) -> Option<BinopKind> {
    match sym(t) {
        Some(s) => if s == seq!['+'] {
            Some(BinopKind::Add)
        } else if s == seq!['-'] {
            Some(BinopKind::Sub)
        } else if s == seq!['*'] {
            Some(BinopKind::Mlt)
        } else if s == seq!['/'] {
            Some(BinopKind::Div)
        } else if s == seq!['<'] {
            Some(BinopKind::Lt)
        } else if s == seq!['>'] {
            Some(BinopKind::Gt)
        } else if s == seq!['=', '='] {
            Some(BinopKind::Eq)
        } else if s == seq!['!', '='] {
            Some(BinopKind::Ne)
        } else if s == seq!['<', '='] {
            Some(BinopKind::Le)
        } else if s == seq!['>', '='] {
            Some(BinopKind::Ge)
        } else {
            None
        },
        None => None,
    }
}

/// The assignment that a token stands for.
pub open spec fn assignment_kind_of(t: TokenView) -> Option<AssignmentKind> {
    match sym(t) {
        Some(s) => if s == seq!['='] {
            Some(AssignmentKind::Assign)
        } else if s == seq!['+', '='] {
            Some(AssignmentKind::AddAssign)
        } else if s == seq!['-', '='] {
            Some(AssignmentKind::SubAssign)
        } else if s == seq!['*', '='] {
            Some(AssignmentKind::MltAssign)
        } else if s == seq!['/', '='] {
            Some(AssignmentKind::DivAssign)
        } else {
            None
        },
        None => None,
    }
}

/// The outcome of parsing a part of the input from some position: the
/// value read, the position after it and the arenas with the new nodes; or
/// why it failed.
pub enum Parsed<T> {
    Read { value: T, pos: int, ast: Ast },
    Failed(FailureView),
}

pub open spec fn err_expected(what: Seq<char>, t: TokenView) -> FailureView {
    FailureView::Error(ParserErrView::Expected(what, t))
}

/// The symbol `s` at `p`: the position after it.
pub open spec fn sp_expect(toks: Seq<TokenView>, p: int, s: Seq<char>) -> Result<int, FailureView> {
    if sym(tok_at(toks, p)) == Some(s) {
        Ok(p + 1)
    } else {
        Err(err_expected(s, tok_at(toks, p)))
    }
}

/// A name at `p`: the name and the position after it.
pub open spec fn sp_expect_ident(toks: Seq<TokenView>, p: int) -> Result<
    (Seq<char>, int),
    FailureView,
> {
    match tok_at(toks, p) {
        TokenView::Ident(s, _) => Ok((s, p + 1)),
        t => Err(err_expected("ident"@, t)),
    }
}

/// The keyword `kw` at `p`: the position after it.
pub open spec fn sp_expect_kw(toks: Seq<TokenView>, p: int, kw: Keyword) -> Result<
    int,
    FailureView,
> {
    if is_kw_tok(tok_at(toks, p), kw) {
        Ok(p + 1)
    } else {
        Err(err_expected("keyword "@ + lexer::keyword_name(kw), tok_at(toks, p)))
    }
}

/// The span of the token at `p`.
pub open spec fn sp_cur_span(toks: Seq<TokenView>, p: int) -> Result<Span, FailureView> {
    match span_of(tok_at(toks, p)) {
        Some(sp) => Ok(sp),
        None => Err(FailureView::Fault(FaultView::CurrentSpanAtEof)),
    }
}

/// The span of the token before `p`.
pub open spec fn sp_prev_span(toks: Seq<TokenView>, p: int) -> Result<Span, FailureView> {
    if 1 <= p <= toks.len() {
        match span_of(toks[p - 1]) {
            Some(sp) => Ok(sp),
            None => Err(FailureView::Fault(FaultView::PreviousSpanAtEof)),
        }
    } else {
        Err(FailureView::Fault(FaultView::NoPreviousToken))
    }
}

/// An expression at `p`; `sl` tells whether `Name {` starts a struct literal.
pub open spec fn sp_expr(toks: Seq<TokenView>, p: int, a: Ast, sl: bool) -> Parsed<int>
    decreases toks.len() - p, 4int,
{
    sp_binop(toks, p, a, sl)
}

/// A postfix expression, then optionally a binary operator and an
/// expression: operators group to the right, all with the same precedence.
pub open spec fn sp_binop(toks: Seq<TokenView>, p: int, a: Ast, sl: bool) -> Parsed<int>
    decreases toks.len() - p, 3int,
{
    match sp_cur_span(toks, p) {
        Err(f) => Parsed::Failed(f),
        Ok(span) => match sp_postfix(toks, p, a, sl) {
            Parsed::Failed(f) => Parsed::Failed(f),
            Parsed::Read { value: lhs, pos: p1, ast: a1 } => match binop_kind_of(tok_at(toks, p1)) {
                Some(kind) => if p <= p1 < toks.len() {
                    match sp_expr(toks, p1 + 1, a1, sl) {
                        Parsed::Failed(f) => Parsed::Failed(f),
                        Parsed::Read { value: rhs, pos: p2, ast: a2 } => Parsed::Read {
                            value: a2.exprs.len() as int,
                            pos: p2,
                            ast: a2.with_expr(
                                ExprNode::Binop { left: lhs, right: rhs, kind: kind },
                                span,
                            ),
                        },
                    }
                } else {
                    arbitrary()
                },
                None => Parsed::Read { value: lhs, pos: p1, ast: a1 },
            },
        },
    }
}

/// A primary expression followed by calls, and at most one field access.
pub open spec fn sp_postfix(toks: Seq<TokenView>, p: int, a: Ast, sl: bool) -> Parsed<int>
    decreases toks.len() - p, 2int,
{
    match sp_cur_span(toks, p) {
        Err(f) => Parsed::Failed(f),
        Ok(span) => match sp_primary(toks, p, a, sl) {
            Parsed::Failed(f) => Parsed::Failed(f),
            Parsed::Read { value: prim, pos: p1, ast: a1 } => if p <= p1 <= toks.len() {
                sp_postfix_loop(toks, p1, a1, sl, prim, span)
            } else {
                arbitrary()
            },
        },
    }
}

/// The calls and field access after the expression `target`.
pub open spec fn sp_postfix_loop(
    toks: Seq<TokenView>,
    p: int,
    a: Ast,
    sl: bool,
    target: int,
    span: Span,
) -> Parsed<int>
    decreases toks.len() - p, 0int,
{
    let t = tok_at(toks, p);
    if sym(t) == Some(seq!['.']) {
        match sp_expect_ident(toks, p + 1) {
            Err(f) => Parsed::Failed(f),
            Ok((field, p2)) => Parsed::Read {
                value: a.exprs.len() as int,
                pos: p2,
                ast: a.with_expr(ExprNode::FieldAccess { target: target, field: field }, span),
            },
        }
    } else if sym(t) == Some(seq!['(']) {
        let q = p + 1;
        let args: Parsed<Seq<int>> = if sym(tok_at(toks, q)) != Some(seq![')']) {
            if q <= toks.len() {
                sp_args(toks, q, a, sl, seq![])
            } else {
                arbitrary()
            }
        } else {
            Parsed::Read { value: seq![], pos: q, ast: a }
        };
        match args {
            Parsed::Failed(f) => Parsed::Failed(f),
            Parsed::Read { value: args, pos: q2, ast: a2 } => match sp_expect(toks, q2, seq![')']) {
                Err(f) => Parsed::Failed(f),
                Ok(q3) => if p < q3 <= toks.len() {
                    sp_postfix_loop(
                        toks,
                        q3,
                        a2.with_expr(ExprNode::FnCall { target: target, args: args }, span),
                        sl,
                        a2.exprs.len() as int,
                        span,
                    )
                } else {
                    arbitrary()
                },
            },
        }
    } else {
        Parsed::Read { value: target, pos: p, ast: a }
    }
}

/// Call arguments: expressions separated by `,`.
pub open spec fn sp_args(toks: Seq<TokenView>, p: int, a: Ast, sl: bool, acc: Seq<int>) -> Parsed<
    Seq<int>,
>
    decreases toks.len() - p, 5int,
{
    match sp_expr(toks, p, a, sl) {
        Parsed::Failed(f) => Parsed::Failed(f),
        Parsed::Read { value: e, pos: p1, ast: a1 } => if sym(tok_at(toks, p1)) == Some(seq![',']) {
            if p <= p1 < toks.len() {
                sp_args(toks, p1 + 1, a1, sl, acc.push(e))
            } else {
                arbitrary()
            }
        } else {
            Parsed::Read { value: acc.push(e), pos: p1, ast: a1 }
        },
    }
}

/// A name, a struct literal `Name { field = expr, ... }` (where `sl`
/// allows), a number, or an expression in parentheses.
pub open spec fn sp_primary(toks: Seq<TokenView>, p: int, a: Ast, sl: bool) -> Parsed<int>
    decreases toks.len() - p, 1int,
{
    let t = tok_at(toks, p);
    match sp_cur_span(toks, p) {
        Err(f) => Parsed::Failed(f),
        Ok(span) => match t {
            TokenView::Ident(s, _) => if sym(tok_at(toks, p + 1)) == Some(seq!['{']) && sl {
                match sp_fields(toks, p + 2, a, sl, seq![]) {
                    Parsed::Failed(f) => Parsed::Failed(f),
                    Parsed::Read { value: fields, pos: p2, ast: a2 } => match sp_expect(
                        toks,
                        p2,
                        seq!['}'],
                    ) {
                        Err(f) => Parsed::Failed(f),
                        Ok(p3) => Parsed::Read {
                            value: a2.exprs.len() as int,
                            pos: p3,
                            ast: a2.with_expr(ExprNode::StructLit { ty: s, fields: fields }, span),
                        },
                    },
                }
            } else {
                Parsed::Read {
                    value: a.exprs.len() as int,
                    pos: p + 1,
                    ast: a.with_expr(ExprNode::Symbol { name: s }, span),
                }
            },
            TokenView::Num(n, _) => Parsed::Read {
                value: a.exprs.len() as int,
                pos: p + 1,
                ast: a.with_expr(ExprNode::Number { text: n }, span),
            },
            TokenView::Symbol(s, _) => if s == seq!['('] {
                match sp_expr(toks, p + 1, a, sl) {
                    Parsed::Failed(f) => Parsed::Failed(f),
                    Parsed::Read { value: e, pos: p1, ast: a1 } => if sym(tok_at(toks, p1)) == Some(
                        seq![')'],
                    ) {
                        Parsed::Read { value: e, pos: p1 + 1, ast: a1 }
                    } else {
                        Parsed::Failed(FailureView::Fault(FaultView::UnclosedParen(tok_at(toks, p1))))
                    },
                }
            } else {
                Parsed::Failed(
                    FailureView::Error(
                        ParserErrView::Invalid("Invalid primary token  "@ + lexer::token_text(t)),
                    ),
                )
            },
            _ => Parsed::Failed(
                FailureView::Error(
                    ParserErrView::Invalid("Invalid primary token  "@ + lexer::token_text(t)),
                ),
            ),
        },
    }
}

/// The fields of a struct literal: `name = expr`, separated by `,`.
pub open spec fn sp_fields(
    toks: Seq<TokenView>,
    p: int,
    a: Ast,
    sl: bool,
    acc: Seq<(Seq<char>, int)>,
) -> Parsed<Seq<(Seq<char>, int)>>
    decreases toks.len() - p, 5int,
{
    if tok_at(toks, p) is Ident {
        match sp_expect_ident(toks, p) {
            Err(f) => Parsed::Failed(f),
            Ok((name, p1)) => match sp_expect(toks, p1, seq!['=']) {
                Err(f) => Parsed::Failed(f),
                Ok(p2) => if p < p2 <= toks.len() {
                    match sp_expr(toks, p2, a, sl) {
                        Parsed::Failed(f) => Parsed::Failed(f),
                        Parsed::Read { value: e, pos: p3, ast: a3 } => if sym(tok_at(toks, p3)) != Some(
                            seq![','],
                        ) {
                            Parsed::Read { value: acc.push((name, e)), pos: p3, ast: a3 }
                        } else if p < p3 < toks.len() {
                            sp_fields(toks, p3 + 1, a3, sl, acc.push((name, e)))
                        } else {
                            arbitrary()
                        },
                    }
                } else {
                    arbitrary()
                },
            },
        }
    } else {
        Parsed::Read { value: acc, pos: p, ast: a }
    }
}

/// A type: a name, or `*` before a type.
pub open spec fn sp_type(toks: Seq<TokenView>, p: int) -> Result<(TypeTree, int), FailureView>
    decreases toks.len() - p,
{
    match tok_at(toks, p) {
        TokenView::Symbol(s, _) => if s == seq!['*'] {
            if 0 <= p < toks.len() {
                match sp_type(toks, p + 1) {
                    Err(f) => Err(f),
                    Ok((t, p1)) => Ok((TypeTree::Pointer(Box::new(t)), p1)),
                }
            } else {
                arbitrary()
            }
        } else {
            Err(FailureView::Fault(FaultView::InvalidSymbolInType))
        },
        TokenView::Ident(_, _) => sp_type_atomic(toks, p),
        _ => Err(FailureView::Fault(FaultView::InvalidTypeStart)),
    }
}

/// A type name.
pub open spec fn sp_type_atomic(toks: Seq<TokenView>, p: int) -> Result<
    (TypeTree, int),
    FailureView,
> {
    match tok_at(toks, p) {
        TokenView::Ident(s, _) => Ok((TypeTree::Base(s), p + 1)),
        _ => Err(FailureView::Fault(FaultView::InvalidTypeAtomic)),
    }
}

/// The condition of an `if`: an expression in which `Name {` does not start
/// a struct literal.
pub open spec fn sp_if_condition(toks: Seq<TokenView>, p: int, a: Ast) -> Parsed<int> {
    sp_expr(toks, p, a, false)
}

/// `return expr;`
pub open spec fn sp_return(toks: Seq<TokenView>, p: int, a: Ast, sl: bool) -> Parsed<int> {
    match sp_cur_span(toks, p) {
        Err(f) => Parsed::Failed(f),
        Ok(span) => match sp_expect_kw(toks, p, Keyword::Return) {
            Err(f) => Parsed::Failed(f),
            Ok(p1) => match sp_expr(toks, p1, a, sl) {
                Parsed::Failed(f) => Parsed::Failed(f),
                Parsed::Read { value: e, pos: p2, ast: a2 } => match sp_expect(toks, p2, seq![';']) {
                    Err(f) => Parsed::Failed(f),
                    Ok(p3) => Parsed::Read {
                        value: a2.stmts.len() as int,
                        pos: p3,
                        ast: a2.with_stmt(StmtNode::Return { expr: e }, span),
                    },
                },
            },
        },
    }
}

/// A declaration `name := expr` or `name : type = expr` (without the `;`).
pub open spec fn sp_vardec(toks: Seq<TokenView>, p: int, a: Ast, sl: bool) -> Parsed<int> {
    match sp_cur_span(toks, p) {
        Err(f) => Parsed::Failed(f),
        Ok(span) => match sp_expect_ident(toks, p) {
            Err(f) => Parsed::Failed(f),
            Ok((name, p1)) => match tok_at(toks, p1) {
                TokenView::Symbol(s, _) => if s == seq![':', '='] {
                    match sp_expr(toks, p1 + 1, a, sl) {
                        Parsed::Failed(f) => Parsed::Failed(f),
                        Parsed::Read { value: rhs, pos: p2, ast: a2 } => Parsed::Read {
                            value: a2.stmts.len() as int,
                            pos: p2,
                            ast: a2.with_stmt(
                                StmtNode::VarDec { name: name, ty: None, val: Some(rhs) },
                                span,
                            ),
                        },
                    }
                } else if s == seq![':'] {
                    match sp_type(toks, p1 + 1) {
                        Err(f) => Parsed::Failed(f),
                        Ok((t, p2)) => if sym(tok_at(toks, p2)) == Some(seq!['=']) {
                            match sp_expr(toks, p2 + 1, a, sl) {
                                Parsed::Failed(f) => Parsed::Failed(f),
                                Parsed::Read { value: rhs, pos: p3, ast: a3 } => Parsed::Read {
                                    value: a3.stmts.len() as int,
                                    pos: p3,
                                    ast: a3.with_stmt(
                                        StmtNode::VarDec { name: name, ty: Some(t), val: Some(rhs) },
                                        span,
                                    ),
                                },
                            }
                        } else {
                            Parsed::Failed(FailureView::Fault(FaultView::DeclarationWithoutValue))
                        },
                    }
                } else {
                    Parsed::Failed(FailureView::Fault(FaultView::UnexpectedDeclarationSymbol))
                },
                _ => Parsed::Failed(FailureView::Fault(FaultView::ExpectedDeclarationSymbol)),
            },
        },
    }
}

/// The fault met by a declaration at `p` (a name, then a declaration symbol)
/// that has none of the two shapes `name := expr` and `name : type = expr`:
/// no symbol after the name, another symbol than `:=` or `:`, a type that
/// does not read, or a type without `=` after it.
pub open spec fn vardec_shape_fault(toks: Seq<TokenView>, p: int) -> Option<FailureView> {
    match tok_at(toks, p + 1) {
        TokenView::Symbol(s, _) => if s == seq![':', '='] {
            None
        } else if s == seq![':'] {
            match sp_type(toks, p + 2) {
                Err(f) => Some(f),
                Ok((_, q)) => if sym(tok_at(toks, q)) == Some(seq!['=']) {
                    None
                } else {
                    Some(FailureView::Fault(FaultView::DeclarationWithoutValue))
                },
            }
        } else {
            Some(FailureView::Fault(FaultView::UnexpectedDeclarationSymbol))
        },
        _ => Some(FailureView::Fault(FaultView::ExpectedDeclarationSymbol)),
    }
}

/// A statement that starts with an expression: a declaration, an
/// assignment, or an expression; each ends with `;`.
pub open spec fn sp_expr_stmt(toks: Seq<TokenView>, p: int, a: Ast, sl: bool) -> Parsed<int> {
    match sp_cur_span(toks, p) {
        Err(f) => Parsed::Failed(f),
        Ok(span) => if tok_at(toks, p) is Ident && (match peek_at(toks, p) {
            TokenView::Symbol(s, _) => lexer::is_vardec_text(s),
            _ => false,
        }) {
            match sp_vardec(toks, p, a, sl) {
                Parsed::Failed(f) => Parsed::Failed(f),
                Parsed::Read { value: id, pos: p1, ast: a1 } => match sp_expect(toks, p1, seq![';']) {
                    Err(f) => Parsed::Failed(f),
                    Ok(p2) => Parsed::Read { value: id, pos: p2, ast: a1 },
                },
            }
        } else {
            match sp_expr(toks, p, a, sl) {
                Parsed::Failed(f) => Parsed::Failed(f),
                Parsed::Read { value: e, pos: p1, ast: a1 } => match assignment_kind_of(
                    tok_at(toks, p1),
                ) {
                    Some(kind) => match sp_expr(toks, p1 + 1, a1, sl) {
                        Parsed::Failed(f) => Parsed::Failed(f),
                        Parsed::Read { value: r, pos: p2, ast: a2 } => match sp_expect(
                            toks,
                            p2,
                            seq![';'],
                        ) {
                            Err(f) => Parsed::Failed(f),
                            Ok(p3) => Parsed::Read {
                                value: a2.stmts.len() as int,
                                pos: p3,
                                ast: a2.with_stmt(
                                    StmtNode::Assign { left: e, right: r, kind: kind },
                                    span,
                                ),
                            },
                        },
                    },
                    None => match sp_expect(toks, p1, seq![';']) {
                        Err(f) => Parsed::Failed(f),
                        Ok(p2) => Parsed::Read {
                            value: a1.stmts.len() as int,
                            pos: p2,
                            ast: a1.with_stmt(StmtNode::Expr { expr: e }, span),
                        },
                    },
                },
            }
        },
    }
}

/// A statement: an `if`, a `return`, or one that starts with an expression.
pub open spec fn sp_stmt(toks: Seq<TokenView>, p: int, a: Ast, sl: bool) -> Parsed<int>
    decreases toks.len() - p, 2int,
{
    let t = tok_at(toks, p);
    if is_kw_tok(t, Keyword::If) {
        sp_if_stmt(toks, p, a, sl)
    } else if is_kw_tok(t, Keyword::Return) {
        sp_return(toks, p, a, sl)
    } else {
        sp_expr_stmt(toks, p, a, sl)
    }
}

/// `{`, statements, `}`.
pub open spec fn sp_block(toks: Seq<TokenView>, p: int, a: Ast, sl: bool) -> Parsed<Seq<int>>
    decreases toks.len() - p, 1int,
{
    match sp_expect(toks, p, seq!['{']) {
        Err(f) => Parsed::Failed(f),
        Ok(p1) => if 0 <= p < p1 <= toks.len() {
            match sp_stmts(toks, p1, a, sl, seq![]) {
                Parsed::Failed(f) => Parsed::Failed(f),
                Parsed::Read { value: stmts, pos: p2, ast: a2 } => match sp_expect(
                    toks,
                    p2,
                    seq!['}'],
                ) {
                    Err(f) => Parsed::Failed(f),
                    Ok(p3) => Parsed::Read { value: stmts, pos: p3, ast: a2 },
                },
            }
        } else {
            arbitrary()
        },
    }
}

/// Statements up to a `}`.
pub open spec fn sp_stmts(toks: Seq<TokenView>, p: int, a: Ast, sl: bool, acc: Seq<int>) -> Parsed<
    Seq<int>,
>
    decreases toks.len() - p, 3int,
{
    if sym(tok_at(toks, p)) == Some(seq!['}']) {
        Parsed::Read { value: acc, pos: p, ast: a }
    } else {
        match sp_stmt(toks, p, a, sl) {
            Parsed::Failed(f) => Parsed::Failed(f),
            Parsed::Read { value: s, pos: p1, ast: a1 } => if p < p1 <= toks.len() {
                sp_stmts(toks, p1, a1, sl, acc.push(s))
            } else {
                arbitrary()
            },
        }
    }
}

/// The `else if cond { ... }` parts of an `if`.
pub open spec fn sp_alts(
    toks: Seq<TokenView>,
    p: int,
    a: Ast,
    sl: bool,
    acc: Seq<(int, Seq<int>)>,
) -> Parsed<Seq<(int, Seq<int>)>>
    decreases toks.len() - p, 3int,
{
    if is_kw_tok(tok_at(toks, p), Keyword::Else) && is_kw_tok(peek_at(toks, p), Keyword::If) {
        match sp_if_condition(toks, p + 2, a) {
            Parsed::Failed(f) => Parsed::Failed(f),
            Parsed::Read { value: c, pos: p1, ast: a1 } => if 0 <= p < p1 <= toks.len() {
                match sp_block(toks, p1, a1, sl) {
                    Parsed::Failed(f) => Parsed::Failed(f),
                    Parsed::Read { value: b, pos: p2, ast: a2 } => if p < p2 <= toks.len() {
                        sp_alts(toks, p2, a2, sl, acc.push((c, b)))
                    } else {
                        arbitrary()
                    },
                }
            } else {
                arbitrary()
            },
        }
    } else {
        Parsed::Read { value: acc, pos: p, ast: a }
    }
}

/// `if cond { ... }`, any number of `else if cond { ... }`, and optionally
/// `else { ... }`; its span is that of the `if`.
pub open spec fn sp_if_stmt(toks: Seq<TokenView>, p: int, a: Ast, sl: bool) -> Parsed<int>
    decreases toks.len() - p, 1int,
{
    match sp_expect_kw(toks, p, Keyword::If) {
        Err(f) => Parsed::Failed(f),
        Ok(p1) => match sp_prev_span(toks, p1) {
            Err(f) => Parsed::Failed(f),
            Ok(span) => match sp_if_condition(toks, p1, a) {
                Parsed::Failed(f) => Parsed::Failed(f),
                Parsed::Read { value: cond, pos: p2, ast: a2 } => if 0 <= p < p2 <= toks.len() {
                    match sp_block(toks, p2, a2, sl) {
                        Parsed::Failed(f) => Parsed::Failed(f),
                        Parsed::Read { value: body, pos: p3, ast: a3 } => if p < p3 <= toks.len() {
                            match sp_alts(toks, p3, a3, sl, seq![]) {
                                Parsed::Failed(f) => Parsed::Failed(f),
                                Parsed::Read { value: alts, pos: p4, ast: a4 } => {
                                    let els: Parsed<Option<Seq<int>>> = if is_kw_tok(
                                        tok_at(toks, p4),
                                        Keyword::Else,
                                    ) {
                                        if p < p4 < toks.len() {
                                            match sp_block(toks, p4 + 1, a4, sl) {
                                                Parsed::Failed(f) => Parsed::Failed(f),
                                                Parsed::Read { value: b, pos: p5, ast: a5 } => Parsed::Read {
                                                    value: Some(b),
                                                    pos: p5,
                                                    ast: a5,
                                                },
                                            }
                                        } else {
                                            arbitrary()
                                        }
                                    } else {
                                        Parsed::Read { value: None, pos: p4, ast: a4 }
                                    };
                                    match els {
                                        Parsed::Failed(f) => Parsed::Failed(f),
                                        Parsed::Read { value: else_block, pos: p5, ast: a5 } => Parsed::Read {
                                            value: a5.stmts.len() as int,
                                            pos: p5,
                                            ast: a5.with_stmt(
                                                StmtNode::If {
                                                    cond: cond,
                                                    block: body,
                                                    alts: alts,
                                                    else_block: else_block,
                                                },
                                                span,
                                            ),
                                        },
                                    }
                                },
                            }
                        } else {
                            arbitrary()
                        },
                    }
                } else {
                    arbitrary()
                },
            },
        },
    }
}

/// Function arguments: `name : type`, separated by `,`.
pub open spec fn sp_fn_dec_args(
    toks: Seq<TokenView>,
    p: int,
    acc: Seq<(Seq<char>, TypeTree)>,
) -> Result<(Seq<(Seq<char>, TypeTree)>, int), FailureView>
    decreases toks.len() - p,
{
    match sp_expect_ident(toks, p) {
        Err(f) => Err(f),
        Ok((name, p1)) => match sp_expect(toks, p1, seq![':']) {
            Err(f) => Err(f),
            Ok(p2) => match sp_type(toks, p2) {
                Err(f) => Err(f),
                Ok((t, p3)) => if sym(tok_at(toks, p3)) != Some(seq![',']) {
                    Ok((acc.push((name, t)), p3))
                } else if p < p3 < toks.len() {
                    sp_fn_dec_args(toks, p3 + 1, acc.push((name, t)))
                } else {
                    arbitrary()
                },
            },
        },
    }
}

/// `fn name(args) : type { ... }`, the return type optional; its span is
/// that of the `fn`.
pub open spec fn sp_fn_dec(toks: Seq<TokenView>, p: int, a: Ast, sl: bool) -> Parsed<int> {
    match sp_expect_kw(toks, p, Keyword::Fn) {
        Err(f) => Parsed::Failed(f),
        Ok(p1) => match sp_prev_span(toks, p1) {
            Err(f) => Parsed::Failed(f),
            Ok(span) => match sp_expect_ident(toks, p1) {
                Err(f) => Parsed::Failed(f),
                Ok((name, p2)) => match sp_expect(toks, p2, seq!['(']) {
                    Err(f) => Parsed::Failed(f),
                    Ok(p3) => {
                        let args = if sym(tok_at(toks, p3)) == Some(seq![')']) {
                            Ok((seq![], p3))
                        } else {
                            sp_fn_dec_args(toks, p3, seq![])
                        };
                        match args {
                            Err(f) => Parsed::Failed(f),
                            Ok((args, p4)) => match sp_expect(toks, p4, seq![')']) {
                                Err(f) => Parsed::Failed(f),
                                Ok(p5) => {
                                    let ret = if sym(tok_at(toks, p5)) == Some(seq![':']) {
                                        match sp_type(toks, p5 + 1) {
                                            Err(f) => Err(f),
                                            Ok((t, q)) => Ok((Some(t), q)),
                                        }
                                    } else {
                                        Ok((None, p5))
                                    };
                                    match ret {
                                        Err(f) => Parsed::Failed(f),
                                        Ok((ret, p6)) => if sym(tok_at(toks, p6)) == Some(
                                            seq!['{'],
                                        ) {
                                            match sp_block(toks, p6, a, sl) {
                                                Parsed::Failed(f) => Parsed::Failed(f),
                                                Parsed::Read { value: b, pos: p7, ast: a7 } => Parsed::Read {
                                                    value: a7.items.len() as int,
                                                    pos: p7,
                                                    ast: a7.with_item(
                                                        ItemNode::FnDec {
                                                            name: name,
                                                            args: args,
                                                            ret: ret,
                                                            body: Some(b),
                                                        },
                                                        span,
                                                    ),
                                                },
                                            }
                                        } else {
                                            Parsed::Failed(FailureView::Fault(FaultView::NeedBody))
                                        },
                                    }
                                },
                            },
                        }
                    },
                },
            },
        },
    }
}

/// Struct fields: `name : type`, each optionally followed by `,`, up to `}`.
pub open spec fn sp_struct_fields(
    toks: Seq<TokenView>,
    p: int,
    acc: Seq<(Seq<char>, TypeTree)>,
) -> Result<(Seq<(Seq<char>, TypeTree)>, int), FailureView>
    decreases toks.len() - p,
{
    if sym(tok_at(toks, p)) == Some(seq!['}']) {
        Ok((acc, p))
    } else {
        match sp_expect_ident(toks, p) {
            Err(f) => Err(f),
            Ok((name, p1)) => match sp_expect(toks, p1, seq![':']) {
                Err(f) => Err(f),
                Ok(p2) => match sp_type(toks, p2) {
                    Err(f) => Err(f),
                    Ok((t, p3)) => {
                        let p4 = if sym(tok_at(toks, p3)) == Some(seq![',']) {
                            p3 + 1
                        } else {
                            p3
                        };
                        if p < p4 <= toks.len() {
                            sp_struct_fields(toks, p4, acc.push((name, t)))
                        } else {
                            arbitrary()
                        }
                    },
                },
            },
        }
    }
}

/// `struct Name { fields }`; its span is that of `struct`.
pub open spec fn sp_struct_dec(toks: Seq<TokenView>, p: int, a: Ast) -> Parsed<int> {
    match sp_cur_span(toks, p) {
        Err(f) => Parsed::Failed(f),
        Ok(span) => match sp_expect_kw(toks, p, Keyword::Struct) {
            Err(f) => Parsed::Failed(f),
            Ok(p1) => match sp_expect_ident(toks, p1) {
                Err(f) => Parsed::Failed(f),
                Ok((name, p2)) => match sp_expect(toks, p2, seq!['{']) {
                    Err(f) => Parsed::Failed(f),
                    Ok(p3) => match sp_struct_fields(toks, p3, seq![]) {
                        Err(f) => Parsed::Failed(f),
                        Ok((fields, p4)) => match sp_expect(toks, p4, seq!['}']) {
                            Err(f) => Parsed::Failed(f),
                            Ok(p5) => Parsed::Read {
                                value: a.items.len() as int,
                                pos: p5,
                                ast: a.with_item(
                                    ItemNode::StructDec { name: name, fields: fields },
                                    span,
                                ),
                            },
                        },
                    },
                },
            },
        },
    }
}

/// A failure of a top-level declaration: an error there cannot be recovered from.
pub open spec fn unwrapped(f: FailureView) -> FailureView {
    match f {
        FailureView::Error(e) => FailureView::Fault(FaultView::Unwrapped(e)),
        f => f,
    }
}

/// The declarations of a module, up to the end of the input.
pub open spec fn sp_module_items(toks: Seq<TokenView>, p: int, a: Ast, acc: Seq<int>) -> Parsed<
    Seq<int>,
>
    decreases toks.len() - p,
{
    let t = tok_at(toks, p);
    match t {
        TokenView::EOF => Parsed::Read { value: acc, pos: p, ast: a },
        TokenView::Keyword(kw, _) => if kw == Keyword::Fn || kw == Keyword::Struct {
            let d = if kw == Keyword::Fn {
                sp_fn_dec(toks, p, a, true)
            } else {
                sp_struct_dec(toks, p, a)
            };
            match d {
                Parsed::Failed(f) => Parsed::Failed(unwrapped(f)),
                Parsed::Read { value: id, pos: p1, ast: a1 } => if p < p1 <= toks.len() {
                    sp_module_items(toks, p1, a1, acc.push(id))
                } else {
                    arbitrary()
                },
            }
        } else {
            Parsed::Failed(FailureView::Error(ParserErrView::Invalid("invalid kw"@)))
        },
        _ => Parsed::Failed(
            FailureView::Error(ParserErrView::Invalid("Invalid token "@ + lexer::token_text(t))),
        ),
    }
}

/// A module: its declarations up to the end of the input, in a new module
/// node whose span is that of its first token.
pub open spec fn sp_module(toks: Seq<TokenView>, p: int, a: Ast) -> Parsed<int> {
    match sp_cur_span(toks, p) {
        Err(f) => Parsed::Failed(f),
        Ok(span) => match sp_module_items(toks, p, a, seq![]) {
            Parsed::Failed(f) => Parsed::Failed(f),
            Parsed::Read { value: items, pos: p1, ast: a1 } => Parsed::Read {
                value: a1.mods.len() as int,
                pos: p1,
                ast: a1.with_mod(items, span),
            },
        },
    }
}


// ---------------------------------------------------------------------------
// The parser
// ---------------------------------------------------------------------------

/// `r` is what the grammar says `p` reads: the value, with the parser at
/// `pos` and the arenas `ast`; or the same failure.
pub open spec fn outcome<T: View>(r: Result<T, ParseFailure>, pos: int, ast: Ast, p: Parsed<T::V>) -> bool {
    match p {
        Parsed::Read { value, pos: q, ast: b } => r matches Ok(v) && v@ == value && pos == q && ast == b,
        Parsed::Failed(f) => r matches Err(e) && e@ == f,
    }
}

/// Reads a module from a token stream into a context.
pub struct Parser {
    ctx: Context,
    lexer: lexer::Lexer,
    parse_struct_lit: bool,
    pub root: ModId,
}

/// The binary operator a token stands for.
fn binop_kind(t: &Token) -> (r: Option<BinopKind>)
    ensures
        r == binop_kind_of(t@),
{
    proof {
        reveal_strlit("+");
        reveal_strlit("-");
        reveal_strlit("*");
        reveal_strlit("/");
        reveal_strlit("<");
        reveal_strlit(">");
        reveal_strlit("==");
        reveal_strlit("!=");
        reveal_strlit("<=");
        reveal_strlit(">=");
        assert("+"@ =~= seq!['+']);
        assert("-"@ =~= seq!['-']);
        assert("*"@ =~= seq!['*']);
        assert("/"@ =~= seq!['/']);
        assert("<"@ =~= seq!['<']);
        assert(">"@ =~= seq!['>']);
        assert("=="@ =~= seq!['=', '=']);
        assert("!="@ =~= seq!['!', '=']);
        assert("<="@ =~= seq!['<', '=']);
        assert(">="@ =~= seq!['>', '=']);
    }
    if t.is_symbol("+") {
        Some(BinopKind::Add)
    } else if t.is_symbol("-") {
        Some(BinopKind::Sub)
    } else if t.is_symbol("*") {
        Some(BinopKind::Mlt)
    } else if t.is_symbol("/") {
        Some(BinopKind::Div)
    } else if t.is_symbol("<") {
        Some(BinopKind::Lt)
    } else if t.is_symbol(">") {
        Some(BinopKind::Gt)
    } else if t.is_symbol("==") {
        Some(BinopKind::Eq)
    } else if t.is_symbol("!=") {
        Some(BinopKind::Ne)
    } else if t.is_symbol("<=") {
        Some(BinopKind::Le)
    } else if t.is_symbol(">=") {
        Some(BinopKind::Ge)
    } else {
        None
    }
}

/// The assignment a token stands for.
fn assignment_kind(t: &Token) -> (r: Option<AssignmentKind>)
    ensures
        r == assignment_kind_of(t@),
{
    proof {
        reveal_strlit("=");
        reveal_strlit("+=");
        reveal_strlit("-=");
        reveal_strlit("*=");
        reveal_strlit("/=");
        assert("="@ =~= seq!['=']);
        assert("+="@ =~= seq!['+', '=']);
        assert("-="@ =~= seq!['-', '=']);
        assert("*="@ =~= seq!['*', '=']);
        assert("/="@ =~= seq!['/', '=']);
    }
    if t.is_symbol("=") {
        Some(AssignmentKind::Assign)
    } else if t.is_symbol("+=") {
        Some(AssignmentKind::AddAssign)
    } else if t.is_symbol("-=") {
        Some(AssignmentKind::SubAssign)
    } else if t.is_symbol("*=") {
        Some(AssignmentKind::MltAssign)
    } else if t.is_symbol("/=") {
        Some(AssignmentKind::DivAssign)
    } else {
        None
    }
}

impl Parser {
    pub closed spec fn toks(&self) -> Seq<TokenView> {
        self.lexer.tokens()
    }

    pub closed spec fn pos(&self) -> int {
        self.lexer.index() as int
    }

    pub closed spec fn ast(&self) -> Ast {
        self.ctx.ast()
    }

    pub closed spec fn sl(&self) -> bool {
        self.parse_struct_lit
    }

    /// There is at least one token, and the position is at most past the last.
    pub closed spec fn inv(&self) -> bool {
        &&& self.toks().len() > 0
        &&& 0 <= self.pos() <= self.toks().len()
    }

    /// The parser moved on from `old` (not back), changing nothing but its
    /// position and its syntax arenas, which only grew.
    pub closed spec fn kept(&self, old: &Parser) -> bool {
        &&& self.inv()
        &&& ast_grown(self.ast(), old.ast())
        &&& self.toks() == old.toks()
        &&& self.ctx.rest() == old.ctx.rest()
        &&& self.parse_struct_lit == old.parse_struct_lit
        &&& self.root == old.root
        &&& old.pos() <= self.pos()
    }

    fn new_stmt(&mut self, stmt: Stmt, span: Span) -> (r: StmtId)
        ensures
            r@ == old(self).ast().stmts.len(),
            final(self).ast() == old(self).ast().with_stmt(stmt@, span),
            final(self).ctx.rest() == old(self).ctx.rest(),
            final(self).lexer == old(self).lexer,
            final(self).parse_struct_lit == old(self).parse_struct_lit,
            final(self).root == old(self).root,
    {
        self.ctx.new_stmt(stmt, span)
    }

    fn new_expr(&mut self, expr: Expr, span: Span) -> (r: ExprId)
        ensures
            r@ == old(self).ast().exprs.len(),
            final(self).ast() == old(self).ast().with_expr(expr@, span),
            final(self).ctx.rest() == old(self).ctx.rest(),
            final(self).lexer == old(self).lexer,
            final(self).parse_struct_lit == old(self).parse_struct_lit,
            final(self).root == old(self).root,
    {
        self.ctx.new_expr(expr, span)
    }

    fn new_module(&mut self, m: Module, span: Span) -> (r: ModId)
        ensures
            r@ == old(self).ast().mods.len(),
            final(self).ast() == old(self).ast().with_mod(m@, span),
            final(self).ctx.rest() == old(self).ctx.rest(),
            final(self).lexer == old(self).lexer,
            final(self).parse_struct_lit == old(self).parse_struct_lit,
            final(self).root == old(self).root,
    {
        self.ctx.new_mod(m, span)
    }

    fn new_item(&mut self, item: Item, span: Span) -> (r: ItemId)
        ensures
            r@ == old(self).ast().items.len(),
            final(self).ast() == old(self).ast().with_item(item@, span),
            final(self).ctx.rest() == old(self).ctx.rest(),
            final(self).lexer == old(self).lexer,
            final(self).parse_struct_lit == old(self).parse_struct_lit,
            final(self).root == old(self).root,
    {
        self.ctx.new_item(item, span)
    }

    /// The current token (`EOF` past the last one).
    fn current(&mut self) -> (r: Token)
        requires
            old(self).inv(),
        ensures
            *final(self) == *old(self),
            r@ == tok_at(old(self).toks(), old(self).pos()),
    {
        return if let Some(t) = self.lexer.current() {
            t.clone()
        } else {
            Token::EOF
        }
    }

    /// The token after the current one.
    fn peek(&mut self) -> (r: Token)
        requires
            old(self).inv(),
        ensures
            *final(self) == *old(self),
            r@ == peek_at(old(self).toks(), old(self).pos()),
    {
        return if let Some(t) = self.lexer.peek() {
            t.clone()
        } else {
            Token::EOF
        }
    }

    /// The current token, moving past it unless at the end.
    fn next(&mut self) -> (r: Token)
        requires
            old(self).inv(),
        ensures
            final(self).kept(old(self)),
            final(self).ast() == old(self).ast(),
            r@ == tok_at(old(self).toks(), old(self).pos()),
            final(self).pos() == (if old(self).pos() < old(self).toks().len() {
                old(self).pos() + 1
            } else {
                old(self).pos()
            }),
    {
        return if let Some(t) = self.lexer.next() {
            t.clone()
        } else {
            Token::EOF
        }
    }

    fn get_current_span(&mut self) -> (r: Result<Span, ParseFailure>)
        requires
            old(self).inv(),
        ensures
            *final(self) == *old(self),
            match sp_cur_span(old(self).toks(), old(self).pos()) {
                Ok(sp) => r == Ok::<Span, ParseFailure>(sp),
                Err(f) => r matches Err(e) && e@ == f,
            },
    {
        match self.current() {
            Token::Symbol(_, s) => Ok(s),
            Token::Keyword(_, s) => Ok(s),
            Token::Ident(_, s) => Ok(s),
            Token::Num(_, s) => Ok(s),
            Token::EOF => Err(ParseFailure::Fault(ParseFault::CurrentSpanAtEof)),
        }
    }

    fn get_prev_span(&mut self) -> (r: Result<Span, ParseFailure>)
        requires
            old(self).inv(),
        ensures
            *final(self) == *old(self),
            match sp_prev_span(old(self).toks(), old(self).pos()) {
                Ok(sp) => r == Ok::<Span, ParseFailure>(sp),
                Err(f) => r matches Err(e) && e@ == f,
            },
    {
        match self.lexer.prev() {
            None => Err(ParseFailure::Fault(ParseFault::NoPreviousToken)),
            Some(t) => match t {
                Token::Symbol(_, s) => Ok(*s),
                Token::Keyword(_, s) => Ok(*s),
                Token::Ident(_, s) => Ok(*s),
                Token::Num(_, s) => Ok(*s),
                Token::EOF => Err(ParseFailure::Fault(ParseFault::PreviousSpanAtEof)),
            },
        }
    }

    fn expect_kw(&mut self, kw: Keyword) -> (r: Result<Keyword, ParseFailure>)
        requires
            old(self).inv(),
        ensures
            final(self).kept(old(self)),
            final(self).ast() == old(self).ast(),
            match sp_expect_kw(old(self).toks(), old(self).pos(), kw) {
                Ok(p) => r == Ok::<Keyword, ParseFailure>(kw) && final(self).pos() == p,
                Err(f) => r matches Err(e) && e@ == f,
            },
    {
        match self.current() {
            Token::Keyword(k, _) => {
                if k == kw {
                    self.next();
                    Ok(k)
                } else {
                    Err(ParseFailure::Error(ParserErr::Expected(keyword_expected(kw), self.current())))
                }
            },
            _ => Err(ParseFailure::Error(ParserErr::Expected(keyword_expected(kw), self.current()))),
        }
    }

    /// Consumes a name.
    fn expect_ident(&mut self) -> (r: Result<String, ParseFailure>)
        requires
            old(self).inv(),
        ensures
            final(self).kept(old(self)),
            final(self).ast() == old(self).ast(),
            match sp_expect_ident(old(self).toks(), old(self).pos()) {
                Ok((name, p)) => r matches Ok(n) && n@ == name && final(self).pos() == p,
                Err(f) => r matches Err(e) && e@ == f,
            },
    {
        match self.current() {
            Token::Ident(ident, _) => {
                self.next();
                Ok(ident)
            },
            _ => Err(ParseFailure::Error(ParserErr::Expected(String::from_str("ident"), self.current()))),
        }
    }

    /// Whether the current token is the symbol `s`.
    fn is_symbol(&mut self, s: &'static str) -> (r: bool)
        requires
            old(self).inv(),
        ensures
            *final(self) == *old(self),
            r == (sym(tok_at(old(self).toks(), old(self).pos())) == Some(s@)),
    {
        if let Token::Symbol(o, _) = self.current() {
            if o == String::from_str(s) {
                return true;
            }
            false
        } else {
            false
        }
    }

    /// Consumes the symbol `s`.
    fn expect(&mut self, s: &'static str) -> (r: Result<(), ParseFailure>)
        requires
            old(self).inv(),
        ensures
            final(self).kept(old(self)),
            final(self).ast() == old(self).ast(),
            match sp_expect(old(self).toks(), old(self).pos(), s@) {
                Ok(p) => r is Ok && final(self).pos() == p,
                Err(f) => r matches Err(e) && e@ == f,
            },
    {
        if let Token::Symbol(o, _) = self.current() {
            if o == String::from_str(s) {
                self.next();
                return Ok(());
            }
            Err(ParseFailure::Error(ParserErr::Expected(String::from_str(s), self.current())))
        } else {
            Err(ParseFailure::Error(ParserErr::Expected(String::from_str(s), self.current())))
        }
    }
}

/// `keyword <Name>`, what `expect_kw` reports as expected.
fn keyword_expected(kw: Keyword) -> (r: String)
    ensures
        r@ == "keyword "@ + lexer::keyword_name(kw),
{
    let mut r = String::from_str("keyword ");
    r.append(kw.name().as_str());
    r
}


impl Parser {
    fn parse_expr(&mut self) -> (r: Result<ExprId, ParseFailure>)
        requires
            old(self).inv(),
        ensures
            final(self).kept(old(self)),
            outcome(
                r,
                final(self).pos(),
                final(self).ast(),
                sp_expr(old(self).toks(), old(self).pos(), old(self).ast(), old(self).sl()),
            ),
        decreases old(self).toks().len() - old(self).pos(), 4int,
    {
        self.parse_binop()
    }

    fn parse_binop(&mut self) -> (r: Result<ExprId, ParseFailure>)
        requires
            old(self).inv(),
        ensures
            final(self).kept(old(self)),
            outcome(
                r,
                final(self).pos(),
                final(self).ast(),
                sp_binop(old(self).toks(), old(self).pos(), old(self).ast(), old(self).sl()),
            ),
        decreases old(self).toks().len() - old(self).pos(), 3int,
    {
        let span = match self.get_current_span() {
            Ok(s) => s,
            Err(e) => return Err(e),
        };
        let lhs = match self.parse_postfix() {
            Ok(e) => e,
            Err(e) => return Err(e),
        };
        let t = self.current();
        match binop_kind(&t) {
            Some(kind) => {
                self.next();
                let rhs = match self.parse_expr() {
                    Ok(e) => e,
                    Err(e) => return Err(e),
                };
                let e = Expr::Binop(Binop { left: lhs, right: rhs, kind: kind });
                Ok(self.new_expr(e, span))
            },
            None => Ok(lhs),
        }
    }

    /// A primary expression, then calls, and at most one field access.
    #[verifier::loop_isolation(false)]
    fn parse_postfix(&mut self) -> (r: Result<ExprId, ParseFailure>)
        requires
            old(self).inv(),
        ensures
            final(self).kept(old(self)),
            outcome(
                r,
                final(self).pos(),
                final(self).ast(),
                sp_postfix(old(self).toks(), old(self).pos(), old(self).ast(), old(self).sl()),
            ),
        decreases old(self).toks().len() - old(self).pos(), 2int,
    {
        let span = match self.get_current_span() {
            Ok(s) => s,
            Err(e) => return Err(e),
        };
        let mut primary = match self.parse_primary() {
            Ok(e) => e,
            Err(e) => return Err(e),
        };
        let ghost whole = sp_postfix(old(self).toks(), old(self).pos(), old(self).ast(), old(self).sl());
        loop
            invariant
                self.kept(old(self)),
                whole == sp_postfix(old(self).toks(), old(self).pos(), old(self).ast(), old(self).sl()),
                whole == sp_postfix_loop(self.toks(), self.pos(), self.ast(), self.sl(), primary@, span),
            decreases self.toks().len() - self.pos(),
        {
            let t = self.current();
            if t.is_symbol(".") {
                proof {
                    reveal_strlit(".");
                    assert("."@ =~= seq!['.']);
                }
                self.next();
                let target = primary;
                let field_name = match self.expect_ident() {
                    Ok(n) => n,
                    Err(e) => return Err(e),
                };
                return Ok(
                    self.new_expr(
                        Expr::FieldAccess(FieldAccess { target: target, field_name: field_name }),
                        span,
                    ),
                );
            } else if t.is_symbol("(") {
                proof {
                    reveal_strlit(".");
                    assert("."@ =~= seq!['.']);
                    reveal_strlit("(");
                    assert("("@ =~= seq!['(']);
                    reveal_strlit(")");
                    assert(")"@ =~= seq![')']);
                }
                self.next();
                let target = primary;
                let args = if !self.is_symbol(")") {
                    match self.parse_call_args() {
                        Ok(a) => a,
                        Err(e) => return Err(e),
                    }
                } else {
                    let v = Vec::<ExprId>::new();
                    proof {
                        assert(ids_view(v@) =~= seq![]);
                    }
                    v
                };
                match self.expect(")") {
                    Ok(()) => {},
                    Err(e) => return Err(e),
                }
                let e = Expr::FnCall(FnCall { target: target, args: args });
                primary = self.new_expr(e, span);
            } else {
                proof {
                    reveal_strlit(".");
                    assert("."@ =~= seq!['.']);
                    reveal_strlit("(");
                    assert("("@ =~= seq!['(']);
                }
                break ;
            }
        }
        Ok(primary)
    }

    /// Call arguments: expressions separated by `,`.
    #[verifier::loop_isolation(false)]
    fn parse_call_args(&mut self) -> (r: Result<Vec<ExprId>, ParseFailure>)
        requires
            old(self).inv(),
        ensures
            final(self).kept(old(self)),
            match sp_args(old(self).toks(), old(self).pos(), old(self).ast(), old(self).sl(), seq![]) {
                Parsed::Read { value, pos, ast } => r matches Ok(v) && ids_view(v@) == value
                    && final(self).pos() == pos && final(self).ast() == ast,
                Parsed::Failed(f) => r matches Err(e) && e@ == f,
            },
        decreases old(self).toks().len() - old(self).pos(), 5int,
    {
        let mut args = Vec::<ExprId>::new();
        let ghost whole = sp_args(old(self).toks(), old(self).pos(), old(self).ast(), old(self).sl(), seq![]);
        proof {
            assert(ids_view(args@) =~= seq![]);
        }
        loop
            invariant
                self.kept(old(self)),
                whole == sp_args(old(self).toks(), old(self).pos(), old(self).ast(), old(self).sl(), seq![]),
                whole == sp_args(self.toks(), self.pos(), self.ast(), self.sl(), ids_view(args@)),
            decreases self.toks().len() - self.pos(),
        {
            let e = match self.parse_expr() {
                Ok(e) => e,
                Err(e) => return Err(e),
            };
            let ghost before = args@;
            args.push(e);
            proof {
                assert(ids_view(args@) =~= ids_view(before).push(e@));
                reveal_strlit(",");
                assert(","@ =~= seq![',']);
            }
            if !self.is_symbol(",") {
                break ;
            }
            self.next();
        }
        Ok(args)
    }

    /// A number, a name (or a struct literal), or an expression in
    /// parentheses. A `(` whose expression is not followed by `)` gives the
    /// fault `UnclosedParen`: whether the `)` is there is known only
    /// once the expression has been read, so that input is not left out by
    /// the precondition. On a token that starts none of these, it fails
    /// without consuming anything.
    #[verifier::loop_isolation(false)]
    fn parse_primary(&mut self) -> (r: Result<ExprId, ParseFailure>)
        requires
            old(self).inv(),
        ensures
            final(self).kept(old(self)),
            outcome(
                r,
                final(self).pos(),
                final(self).ast(),
                sp_primary(old(self).toks(), old(self).pos(), old(self).ast(), old(self).sl()),
            ),
            ({
                let t = tok_at(old(self).toks(), old(self).pos());
                !(t is Ident || t is Num || sym(t) == Some(seq!['(']))
            }) ==> final(self).pos() == old(self).pos() && final(self).ast() == old(self).ast(),
        decreases old(self).toks().len() - old(self).pos(), 1int,
    {
        let t = self.current();
        let span = match self.get_current_span() {
            Ok(s) => s,
            Err(e) => return Err(e),
        };
        proof {
            reveal_strlit("{");
            assert("{"@ =~= seq!['{']);
            reveal_strlit("}");
            assert("}"@ =~= seq!['}']);
            reveal_strlit("(");
            assert("("@ =~= seq!['(']);
            reveal_strlit(")");
            assert(")"@ =~= seq![')']);
            reveal_strlit("=");
            assert("="@ =~= seq!['=']);
            reveal_strlit(",");
            assert(","@ =~= seq![',']);
        }
        match t {
            Token::Ident(s, _span) => {
                self.next();
                if self.is_symbol("{") && self.parse_struct_lit {
                    self.next();
                    let mut fields = Vec::<StructLitField>::new();
                    let ghost whole = sp_fields(self.toks(), self.pos(), self.ast(), self.sl(), seq![]);
                    proof {
                        assert(lit_fields_view(fields@) =~= seq![]);
                    }
                    loop
                        invariant
                            self.kept(old(self)),
                            old(self).pos() < self.pos(),
                            whole == sp_fields(self.toks(), self.pos(), self.ast(), self.sl(), lit_fields_view(fields@)),
                        decreases self.toks().len() - self.pos(),
                    {
                        let c = self.current();
                        if !c.is_ident() {
                            break ;
                        }
                        let name = match self.expect_ident() {
                            Ok(n) => n,
                            Err(e) => return Err(e),
                        };
                        match self.expect("=") {
                            Ok(()) => {},
                            Err(e) => return Err(e),
                        }
                        let expr = match self.parse_expr() {
                            Ok(e) => e,
                            Err(e) => return Err(e),
                        };
                        let ghost before = fields@;
                        fields.push(StructLitField { name: name, expr: expr });
                        proof {
                            assert(lit_fields_view(fields@) =~= lit_fields_view(before).push(
                                (fields@.last().name@, expr@),
                            ));
                        }
                        if !self.is_symbol(",") {
                            break ;
                        } else {
                            self.next();
                        }
                    }
                    match self.expect("}") {
                        Ok(()) => {},
                        Err(e) => return Err(e),
                    }
                    Ok(self.new_expr(Expr::StructLit(StructLit { ty: s, fields: fields }), span))
                } else {
                    let e = Expr::Symbol(Symbol { symbol: s });
                    Ok(self.new_expr(e, span))
                }
            },
            Token::Num(n, _span) => {
                self.next();
                let e = Expr::Number(Number { str: n });
                Ok(self.new_expr(e, span))
            },
            t => {
                if t.is_symbol("(") {
                    self.next();
                    let expr = match self.parse_expr() {
                        Ok(e) => e,
                        Err(e) => return Err(e),
                    };
                    if self.is_symbol(")") {
                        self.next();
                        return Ok(expr);
                    } else {
                        return Err(ParseFailure::Fault(ParseFault::UnclosedParen(self.current())));
                    }
                }
                let mut m = String::from_str("Invalid primary token  ");
                m.append(t.describe().as_str());
                Err(ParseFailure::Error(ParserErr::Invalid(m)))
            },
        }
    }
}


/// `r` is what `sp_type` reads: the type, with the parser at `pos`; or the same failure.
pub open spec fn type_outcome(r: Result<TypeSpecifier, ParseFailure>, pos: int, p: Result<(TypeTree, int), FailureView>) -> bool {
    match p {
        Ok((t, q)) => r matches Ok(v) && v@ == t && pos == q,
        Err(f) => r matches Err(e) && e@ == f,
    }
}

impl Parser {
    fn parse_type_atomic(&mut self) -> (r: Result<TypeSpecifier, ParseFailure>)
        requires
            old(self).inv(),
        ensures
            final(self).kept(old(self)),
            final(self).ast() == old(self).ast(),
            type_outcome(r, final(self).pos(), sp_type_atomic(old(self).toks(), old(self).pos())),
    {
        match self.current() {
            Token::Ident(s, _) => {
                self.next();
                return Ok(TypeSpecifier::Base(s));
            },
            _ => Err(ParseFailure::Fault(ParseFault::InvalidTypeAtomic)),
        }
    }

    fn parse_type_specifier(&mut self) -> (r: Result<TypeSpecifier, ParseFailure>)
        requires
            old(self).inv(),
        ensures
            final(self).kept(old(self)),
            final(self).ast() == old(self).ast(),
            type_outcome(r, final(self).pos(), sp_type(old(self).toks(), old(self).pos())),
        decreases old(self).toks().len() - old(self).pos(),
    {
        let c = self.current();
        match c {
            Token::Symbol(_, _) => {
                proof {
                    reveal_strlit("*");
                    assert("*"@ =~= seq!['*']);
                }
                if c.is_symbol("*") {
                    self.next();
                    let inner = match self.parse_type_specifier() {
                        Ok(t) => t,
                        Err(e) => return Err(e),
                    };
                    return Ok(TypeSpecifier::Pointer(Box::new(inner)));
                } else {
                    Err(ParseFailure::Fault(ParseFault::InvalidSymbolInType))
                }
            },
            Token::Ident(_, _) => self.parse_type_atomic(),
            _ => Err(ParseFailure::Fault(ParseFault::InvalidTypeStart)),
        }
    }

    /// An expression in which `Name {` does not start a struct literal.
    fn parse_if_condition(&mut self) -> (r: Result<ExprId, ParseFailure>)
        requires
            old(self).inv(),
        ensures
            final(self).kept(old(self)),
            outcome(r, final(self).pos(), final(self).ast(), sp_if_condition(old(self).toks(), old(self).pos(), old(self).ast())),
    {
        let prev = self.parse_struct_lit;
        self.parse_struct_lit = false;
        let expr = self.parse_expr();
        self.parse_struct_lit = prev;
        expr
    }

    fn parse_return_stmt(&mut self) -> (r: Result<StmtId, ParseFailure>)
        requires
            old(self).inv(),
        ensures
            final(self).kept(old(self)),
            r is Ok ==> old(self).pos() < final(self).pos(),
            outcome(r, final(self).pos(), final(self).ast(), sp_return(old(self).toks(), old(self).pos(), old(self).ast(), old(self).sl())),
    {
        let span = match self.get_current_span() {
            Ok(s) => s,
            Err(e) => return Err(e),
        };
        match self.expect_kw(Keyword::Return) {
            Ok(_) => {},
            Err(e) => return Err(e),
        }
        let expr = match self.parse_expr() {
            Ok(e) => e,
            Err(e) => return Err(e),
        };
        proof {
            reveal_strlit(";");
            assert(";"@ =~= seq![';']);
        }
        match self.expect(";") {
            Ok(()) => {},
            Err(e) => return Err(e),
        }
        Ok(self.new_stmt(Stmt::Return(expr), span))
    }

    /// The token at position `q`; `EOF` past the last one.
    fn token_at(&self, q: usize) -> (r: Token)
        ensures
            r@ == tok_at(self.toks(), q as int),
            self.toks().len() <= usize::MAX,
    {
        match self.lexer.token_at(q) {
            Some(t) => t.clone(),
            None => Token::EOF,
        }
    }

    /// Where a type that starts at `q` ends, as `sp_type` reads it, or the
    /// fault that reading it meets; the parser does not move.
    fn type_end(&self, q: usize) -> (r: Result<usize, ParseFailure>)
        requires
            q <= self.toks().len(),
        ensures
            match sp_type(self.toks(), q as int) {
                Ok((_, e)) => r matches Ok(x) && x as int == e,
                Err(f) => r matches Err(x) && x@ == f,
            },
        decreases self.toks().len() - q,
    {
        let t = self.token_at(q);
        match t {
            Token::Symbol(_, _) => {
                proof {
                    reveal_strlit("*");
                    assert("*"@ =~= seq!['*']);
                }
                if t.is_symbol("*") {
                    match self.type_end(q + 1) {
                        Ok(x) => Ok(x),
                        Err(f) => Err(f),
                    }
                } else {
                    Err(ParseFailure::Fault(ParseFault::InvalidSymbolInType))
                }
            },
            Token::Ident(_, _) => Ok(q + 1),
            _ => Err(ParseFailure::Fault(ParseFault::InvalidTypeStart)),
        }
    }

    /// The fault of `vardec_shape_fault` at the current position, looked up
    /// without moving.
    fn vardec_shape(&self) -> (r: Option<ParseFailure>)
        requires
            self.inv(),
            tok_at(self.toks(), self.pos()) is Ident,
        ensures
            match vardec_shape_fault(self.toks(), self.pos()) {
                None => r is None,
                Some(f) => r matches Some(x) && x@ == f,
            },
    {
        proof {
            reveal_strlit(":=");
            assert(":="@ =~= seq![':', '=']);
            reveal_strlit(":");
            assert(":"@ =~= seq![':']);
            reveal_strlit("=");
            assert("="@ =~= seq!['=']);
        }
        let p = self.lexer.position();
        let t = self.token_at(p + 1);
        match t {
            Token::Symbol(_, _) => {
                if t.is_symbol(":=") {
                    None
                } else if t.is_symbol(":") {
                    match self.type_end(p + 2) {
                        Err(f) => Some(f),
                        Ok(q) => {
                            let u = self.token_at(q);
                            if u.is_symbol("=") {
                                None
                            } else {
                                Some(ParseFailure::Fault(ParseFault::DeclarationWithoutValue))
                            }
                        },
                    }
                } else {
                    Some(ParseFailure::Fault(ParseFault::UnexpectedDeclarationSymbol))
                }
            },
            _ => Some(ParseFailure::Fault(ParseFault::ExpectedDeclarationSymbol)),
        }
    }

    /// A declaration `name := expr` or `name : type = expr`. The declaration
    /// must have one of these two shapes (`vardec_shape_fault` is `None`):
    /// on any other, reading it would be a fault, and the caller answers
    /// with that fault without coming here.
    fn parse_vardec(&mut self) -> (r: Result<StmtId, ParseFailure>)
        requires
            old(self).inv(),
            tok_at(old(self).toks(), old(self).pos()) is Ident,
            vardec_shape_fault(old(self).toks(), old(self).pos()) is None,
        ensures
            final(self).kept(old(self)),
            outcome(r, final(self).pos(), final(self).ast(), sp_vardec(old(self).toks(), old(self).pos(), old(self).ast(), old(self).sl())),
    {
        let span = match self.get_current_span() {
            Ok(s) => s,
            Err(e) => return Err(e),
        };
        let ident = match self.expect_ident() {
            Ok(n) => n,
            Err(e) => return Err(e),
        };
        proof {
            reveal_strlit(":=");
            assert(":="@ =~= seq![':', '=']);
            reveal_strlit(":");
            assert(":"@ =~= seq![':']);
            reveal_strlit("=");
            assert("="@ =~= seq!['=']);
        }
        let c = self.current();
        match c {
            Token::Symbol(_, _) => {
                if c.is_symbol(":=") {
                    self.next();
                    let rhs = match self.parse_expr() {
                        Ok(e) => e,
                        Err(e) => return Err(e),
                    };
                    let e = Stmt::VarDec(VarDec { s: ident, ty: Option::None, val: Option::Some(rhs) });
                    Ok(self.new_stmt(e, span))
                } else if c.is_symbol(":") {
                    self.next();
                    let t = match self.parse_type_specifier() {
                        Ok(t) => t,
                        Err(e) => return Err(e),
                    };
                    if self.is_symbol("=") {
                        self.next();
                        let rhs = match self.parse_expr() {
                            Ok(e) => e,
                            Err(e) => return Err(e),
                        };
                        let e = Stmt::VarDec(VarDec { s: ident, ty: Some(t), val: Some(rhs) });
                        Ok(self.new_stmt(e, span))
                    } else {
                        proof {
                            assert(false);
                        }
                        Err(ParseFailure::Fault(ParseFault::DeclarationWithoutValue))
                    }
                } else {
                    proof {
                        assert(false);
                    }
                    Err(ParseFailure::Fault(ParseFault::UnexpectedDeclarationSymbol))
                }
            },
            _ => {
                proof {
                    assert(false);
                }
                Err(ParseFailure::Fault(ParseFault::ExpectedDeclarationSymbol))
            },
        }
    }

    /// A declaration, an assignment or an expression, ending with `;`.
    fn parse_expr_stmt(&mut self) -> (r: Result<StmtId, ParseFailure>)
        requires
            old(self).inv(),
        ensures
            final(self).kept(old(self)),
            r is Ok ==> old(self).pos() < final(self).pos(),
            outcome(r, final(self).pos(), final(self).ast(), sp_expr_stmt(old(self).toks(), old(self).pos(), old(self).ast(), old(self).sl())),
    {
        let span = match self.get_current_span() {
            Ok(s) => s,
            Err(e) => return Err(e),
        };
        proof {
            reveal_strlit(";");
            assert(";"@ =~= seq![';']);
        }
        if self.current().is_ident() && self.peek().is_vardec_symbol() {
            if let Some(f) = self.vardec_shape() {
                return Err(f);
            }
            let r = match self.parse_vardec() {
                Ok(s) => s,
                Err(e) => return Err(e),
            };
            match self.expect(";") {
                Ok(()) => {},
                Err(e) => return Err(e),
            }
            return Ok(r);
        }
        let s = match self.parse_expr() {
            Ok(e) => e,
            Err(e) => return Err(e),
        };
        if self.current().is_assingment_symbol() {
            let kind_tok = self.next();
            let right = match self.parse_expr() {
                Ok(e) => e,
                Err(e) => return Err(e),
            };
            let kind = match assignment_kind(&kind_tok) {
                Some(k) => k,
                None => {
                    proof {
                        assert(false);
                    }
                    AssignmentKind::Assign
                },
            };
            let assignment = Assignment { left: s, right: right, kind: kind };
            match self.expect(";") {
                Ok(()) => {},
                Err(e) => return Err(e),
            }
            Ok(self.new_stmt(Stmt::Assignment(assignment), span))
        } else {
            match self.expect(";") {
                Ok(()) => {},
                Err(e) => return Err(e),
            }
            Ok(self.new_stmt(Stmt::Expr(s), span))
        }
    }

    fn parse_stmt(&mut self) -> (r: Result<StmtId, ParseFailure>)
        requires
            old(self).inv(),
        ensures
            final(self).kept(old(self)),
            r is Ok ==> old(self).pos() < final(self).pos(),
            outcome(r, final(self).pos(), final(self).ast(), sp_stmt(old(self).toks(), old(self).pos(), old(self).ast(), old(self).sl())),
        decreases old(self).toks().len() - old(self).pos(), 2int,
    {
        match self.current() {
            Token::Keyword(Keyword::If, _) => self.parse_if_stmt(),
            Token::Keyword(Keyword::Return, _) => self.parse_return_stmt(),
            _ => self.parse_expr_stmt(),
        }
    }

    /// `{`, statements, `}`.
    #[verifier::loop_isolation(false)]
    fn parse_block(&mut self) -> (r: Result<Block, ParseFailure>)
        requires
            old(self).inv(),
        ensures
            final(self).kept(old(self)),
            r is Ok ==> old(self).pos() < final(self).pos(),
            outcome(r, final(self).pos(), final(self).ast(), sp_block(old(self).toks(), old(self).pos(), old(self).ast(), old(self).sl())),
        decreases old(self).toks().len() - old(self).pos(), 1int,
    {
        proof {
            reveal_strlit("{");
            assert("{"@ =~= seq!['{']);
            reveal_strlit("}");
            assert("}"@ =~= seq!['}']);
        }
        match self.expect("{") {
            Ok(()) => {},
            Err(e) => return Err(e),
        }
        let mut stmts = Vec::<StmtId>::new();
        let ghost whole = sp_stmts(self.toks(), self.pos(), self.ast(), self.sl(), seq![]);
        proof {
            assert(stmt_ids_view(stmts@) =~= seq![]);
        }
        loop
            invariant
                self.kept(old(self)),
                old(self).pos() < self.pos(),
                whole == sp_stmts(self.toks(), self.pos(), self.ast(), self.sl(), stmt_ids_view(stmts@)),
            decreases self.toks().len() - self.pos(),
        {
            if self.is_symbol("}") {
                break ;
            }
            let s = match self.parse_stmt() {
                Ok(s) => s,
                Err(e) => return Err(e),
            };
            let ghost before = stmts@;
            stmts.push(s);
            proof {
                assert(stmt_ids_view(stmts@) =~= stmt_ids_view(before).push(s@));
            }
        }
        match self.expect("}") {
            Ok(()) => {},
            Err(e) => return Err(e),
        }
        let fn_body = Block { stmts: stmts };
        return Ok(fn_body);
    }

    /// `if cond { ... }`, then `else if cond { ... }` parts, then optionally `else { ... }`.
    #[verifier::loop_isolation(false)]
    fn parse_if_stmt(&mut self) -> (r: Result<StmtId, ParseFailure>)
        requires
            old(self).inv(),
        ensures
            final(self).kept(old(self)),
            r is Ok ==> old(self).pos() < final(self).pos(),
            outcome(r, final(self).pos(), final(self).ast(), sp_if_stmt(old(self).toks(), old(self).pos(), old(self).ast(), old(self).sl())),
        decreases old(self).toks().len() - old(self).pos(), 1int,
    {
        match self.expect_kw(Keyword::If) {
            Ok(_) => {},
            Err(e) => return Err(e),
        }
        let span = match self.get_prev_span() {
            Ok(s) => s,
            Err(e) => return Err(e),
        };
        let cond = match self.parse_if_condition() {
            Ok(e) => e,
            Err(e) => return Err(e),
        };
        let body = match self.parse_block() {
            Ok(b) => b,
            Err(e) => return Err(e),
        };
        let mut alts = Vec::<IfElseAltCond>::new();
        let ghost whole = sp_alts(self.toks(), self.pos(), self.ast(), self.sl(), seq![]);
        proof {
            assert(alts_view(alts@) =~= seq![]);
        }
        loop
            invariant
                self.kept(old(self)),
                old(self).pos() < self.pos(),
                whole == sp_alts(self.toks(), self.pos(), self.ast(), self.sl(), alts_view(alts@)),
            decreases self.toks().len() - self.pos(),
        {
            if self.current().is_kw(Keyword::Else) && self.peek().is_kw(Keyword::If) {
                self.next();
                self.next();
                let alt_cond = match self.parse_if_condition() {
                    Ok(e) => e,
                    Err(e) => return Err(e),
                };
                let alt_block = match self.parse_block() {
                    Ok(b) => b,
                    Err(e) => return Err(e),
                };
                let ghost before = alts@;
                let a = IfElseAltCond { cond: alt_cond, block: alt_block };
                alts.push(a);
                proof {
                    assert(alts_view(alts@) =~= alts_view(before).push((alt_cond@, alts@.last().block@)));
                }
            } else {
                break ;
            }
        }
        let else_block = if self.current().is_kw(Keyword::Else) {
            self.next();
            match self.parse_block() {
                Ok(b) => Some(b),
                Err(e) => return Err(e),
            }
        } else {
            None
        };
        let s = IfStmt { cond: cond, block: body, alt: alts, else_block: else_block };
        Ok(self.new_stmt(Stmt::IfStmt(s), span))
    }

    /// Function arguments: `name : type`, separated by `,`.
    #[verifier::loop_isolation(false)]
    fn parse_fn_dec_args(&mut self) -> (r: Result<Vec<FnDecArg>, ParseFailure>)
        requires
            old(self).inv(),
        ensures
            final(self).kept(old(self)),
            final(self).ast() == old(self).ast(),
            match sp_fn_dec_args(old(self).toks(), old(self).pos(), seq![]) {
                Ok((args, q)) => r matches Ok(v) && args_view(v@) == args && final(self).pos() == q,
                Err(f) => r matches Err(e) && e@ == f,
            },
    {
        let mut args = Vec::<FnDecArg>::new();
        let ghost whole = sp_fn_dec_args(self.toks(), self.pos(), seq![]);
        proof {
            assert(args_view(args@) =~= seq![]);
            reveal_strlit(":");
            assert(":"@ =~= seq![':']);
            reveal_strlit(",");
            assert(","@ =~= seq![',']);
        }
        loop
            invariant
                self.kept(old(self)),
                self.ast() == old(self).ast(),
                whole == sp_fn_dec_args(self.toks(), self.pos(), args_view(args@)),
            decreases self.toks().len() - self.pos(),
        {
            let ident = match self.expect_ident() {
                Ok(n) => n,
                Err(e) => return Err(e),
            };
            match self.expect(":") {
                Ok(()) => {},
                Err(e) => return Err(e),
            }
            let ty = match self.parse_type_specifier() {
                Ok(t) => t,
                Err(e) => return Err(e),
            };
            let ghost before = args@;
            args.push(FnDecArg { name: ident, ty: ty });
            proof {
                assert(args_view(args@) =~= args_view(before).push((args@.last().name@, args@.last().ty@)));
            }
            if !self.current().is_symbol(",") {
                break ;
            }
            self.next();
        }
        Ok(args)
    }

    /// `struct Name { name : type, ... }`.
    #[verifier::loop_isolation(false)]
    fn parse_struct_dec(&mut self) -> (r: Result<ItemId, ParseFailure>)
        requires
            old(self).inv(),
        ensures
            final(self).kept(old(self)),
            r is Ok ==> old(self).pos() < final(self).pos(),
            outcome(r, final(self).pos(), final(self).ast(), sp_struct_dec(old(self).toks(), old(self).pos(), old(self).ast())),
    {
        let span = match self.get_current_span() {
            Ok(s) => s,
            Err(e) => return Err(e),
        };
        match self.expect_kw(Keyword::Struct) {
            Ok(_) => {},
            Err(e) => return Err(e),
        }
        let name = match self.expect_ident() {
            Ok(n) => n,
            Err(e) => return Err(e),
        };
        proof {
            reveal_strlit("{");
            assert("{"@ =~= seq!['{']);
            reveal_strlit("}");
            assert("}"@ =~= seq!['}']);
            reveal_strlit(":");
            assert(":"@ =~= seq![':']);
            reveal_strlit(",");
            assert(","@ =~= seq![',']);
        }
        match self.expect("{") {
            Ok(()) => {},
            Err(e) => return Err(e),
        }
        let mut fields = Vec::<StructField>::new();
        let ghost whole = sp_struct_fields(self.toks(), self.pos(), seq![]);
        proof {
            assert(fields_view(fields@) =~= seq![]);
        }
        while !self.current().is_symbol("}")
            invariant
                self.kept(old(self)),
                self.ast() == old(self).ast(),
                whole == sp_struct_fields(self.toks(), self.pos(), fields_view(fields@)),
            decreases self.toks().len() - self.pos(),
        {
            let field_name = match self.expect_ident() {
                Ok(n) => n,
                Err(e) => return Err(e),
            };
            match self.expect(":") {
                Ok(()) => {},
                Err(e) => return Err(e),
            }
            let ty = match self.parse_type_specifier() {
                Ok(t) => t,
                Err(e) => return Err(e),
            };
            let ghost before = fields@;
            fields.push(StructField { name: field_name, ty: ty });
            proof {
                assert(fields_view(fields@) =~= fields_view(before).push((fields@.last().name@, fields@.last().ty@)));
            }
            if self.current().is_symbol(",") {
                self.next();
            }
        }
        match self.expect("}") {
            Ok(()) => {},
            Err(e) => return Err(e),
        }
        Ok(self.new_item(Item::StructDec(StructDec { name: name, fields: fields }), span))
    }

    /// `fn name(args) : type { ... }`, the return type optional.
    fn parse_fn_dec(&mut self) -> (r: Result<ItemId, ParseFailure>)
        requires
            old(self).inv(),
        ensures
            final(self).kept(old(self)),
            r is Ok ==> old(self).pos() < final(self).pos(),
            outcome(r, final(self).pos(), final(self).ast(), sp_fn_dec(old(self).toks(), old(self).pos(), old(self).ast(), old(self).sl())),
    {
        match self.expect_kw(Keyword::Fn) {
            Ok(_) => {},
            Err(e) => return Err(e),
        }
        let span = match self.get_prev_span() {
            Ok(s) => s,
            Err(e) => return Err(e),
        };
        let name = match self.expect_ident() {
            Ok(n) => n,
            Err(e) => return Err(e),
        };
        proof {
            reveal_strlit("(");
            assert("("@ =~= seq!['(']);
            reveal_strlit(")");
            assert(")"@ =~= seq![')']);
            reveal_strlit(":");
            assert(":"@ =~= seq![':']);
            reveal_strlit("{");
            assert("{"@ =~= seq!['{']);
        }
        match self.expect("(") {
            Ok(()) => {},
            Err(e) => return Err(e),
        }
        let args = if self.is_symbol(")") {
            let v = Vec::<FnDecArg>::new();
            proof {
                assert(args_view(v@) =~= seq![]);
            }
            v
        } else {
            match self.parse_fn_dec_args() {
                Ok(a) => a,
                Err(e) => return Err(e),
            }
        };
        match self.expect(")") {
            Ok(()) => {},
            Err(e) => return Err(e),
        }
        let ret_ty: Option<TypeSpecifier> = if self.current().is_symbol(":") {
            self.next();
            match self.parse_type_specifier() {
                Ok(t) => Some(t),
                Err(e) => return Err(e),
            }
        } else {
            None
        };
        let body = if self.current().is_symbol("{") {
            match self.parse_block() {
                Ok(b) => Some(b),
                Err(e) => return Err(e),
            }
        } else {
            return Err(ParseFailure::Fault(ParseFault::NeedBody));
        };
        let fndec = FnDec { name: name, args: args, ret_ty: ret_ty, body: body };
        Ok(self.new_item(Item::FnDec(fndec), span))
    }

    /// The declarations of a module, up to the end of the input.
    #[verifier::loop_isolation(false)]
    #[verifier::rlimit(40)]
    fn parse_module_tls(&mut self) -> (r: Result<Vec<ItemId>, ParseFailure>)
        requires
            old(self).inv(),
            old(self).sl(),
        ensures
            final(self).kept(old(self)),
            match sp_module_items(old(self).toks(), old(self).pos(), old(self).ast(), seq![]) {
                Parsed::Read { value, pos, ast } => r matches Ok(v) && item_ids_view(v@) == value
                    && final(self).pos() == pos && final(self).ast() == ast,
                Parsed::Failed(f) => r matches Err(e) && e@ == f,
            },
    {
        let mut stmts: Vec<ItemId> = Vec::new();
        let ghost whole = sp_module_items(self.toks(), self.pos(), self.ast(), seq![]);
        proof {
            assert(item_ids_view(stmts@) =~= seq![]);
        }
        loop
            invariant
                self.kept(old(self)),
                whole == sp_module_items(self.toks(), self.pos(), self.ast(), item_ids_view(stmts@)),
            decreases self.toks().len() - self.pos(),
        {
            let t = self.current();
            match t {
                Token::EOF => break ,
                Token::Keyword(kw, _span) => {
                    let d = match kw {
                        Keyword::Fn => self.parse_fn_dec(),
                        Keyword::Struct => self.parse_struct_dec(),
                        _ => return Err(ParseFailure::Error(ParserErr::Invalid(String::from_str("invalid kw")))),
                    };
                    match d {
                        Ok(id) => {
                            let ghost before = stmts@;
                            stmts.push(id);
                            proof {
                                assert(item_ids_view(stmts@) =~= item_ids_view(before).push(id@));
                            }
                        },
                        Err(ParseFailure::Error(e)) => return Err(ParseFailure::Fault(ParseFault::Unwrapped(e))),
                        Err(f) => return Err(f),
                    }
                },
                _ => {
                    let mut m = String::from_str("Invalid token ");
                    m.append(t.describe().as_str());
                    return Err(ParseFailure::Error(ParserErr::Invalid(m)));
                },
            }
        }
        Ok(stmts)
    }
}


impl Parser {
    /// A module up to the end of the input, added as a new module node.
    fn parse_module(&mut self) -> (r: Result<ModId, ParseFailure>)
        requires
            old(self).inv(),
            old(self).sl(),
        ensures
            final(self).inv(),
            final(self).toks() == old(self).toks(),
            final(self).ctx.rest() == old(self).ctx.rest(),
            ast_grown(final(self).ast(), old(self).ast()),
            outcome(r, final(self).pos(), final(self).ast(), sp_module(old(self).toks(), old(self).pos(), old(self).ast())),
    {
        let span = match self.get_current_span() {
            Ok(s) => s,
            Err(e) => return Err(e),
        };
        let root = match self.parse_module_tls() {
            Ok(items) => items,
            Err(e) => return Err(e),
        };
        self.root = self.new_module(Module { items: root }, span);
        Ok(self.root)
    }

    /// Reads a module from the tokens of `lexer` (from its position on) into
    /// `ctx`; or says why it cannot. Nothing but the syntax arenas of `ctx`
    /// changes, and they only grow.
    pub fn try_parse(ctx: &mut Context, lexer: lexer::Lexer) -> (r: Result<ModId, ParseFailure>)
        requires
            lexer.wf(),
        ensures
            final(ctx).rest() == old(ctx).rest(),
            ast_grown(final(ctx).ast(), old(ctx).ast()),
            match sp_module(lexer.tokens(), lexer.index() as int, old(ctx).ast()) {
                Parsed::Read { value, pos, ast } => r matches Ok(m) && m@ == value && final(ctx).ast() == ast,
                Parsed::Failed(f) => r matches Err(e) && e@ == f,
            },
    {
        let mut owned = Context::new();
        std::mem::swap(ctx, &mut owned);
        let mut p = Parser { ctx: owned, parse_struct_lit: true, lexer: lexer, root: ModId::new(0) };
        let result = p.parse_module();
        std::mem::swap(ctx, &mut p.ctx);
        result
    }

    /// Reads a module from the tokens of `lexer` into `ctx`, for a token
    /// stream that is a module; returns its id.
    pub fn parse(ctx: &mut Context, lexer: lexer::Lexer) -> (r: ModId)
        requires
            lexer.wf(),
            sp_module(lexer.tokens(), lexer.index() as int, old(ctx).ast()) is Read,
        ensures
            final(ctx).rest() == old(ctx).rest(),
            match sp_module(lexer.tokens(), lexer.index() as int, old(ctx).ast()) {
                Parsed::Read { value, pos, ast } => r@ == value && final(ctx).ast() == ast,
                Parsed::Failed(f) => false,
            },
    {
        match Self::try_parse(ctx, lexer) {
            Ok(m) => m,
            Err(_) => {
                proof {
                    assert(false);
                }
                ModId::new(0)
            },
        }
    }

    pub fn get_expr(&self, id: ExprId) -> (r: Result<&Expr, ParserErr>)
        requires
            id@ < self.ast().exprs.len(),
        ensures
            r matches Ok(e) && e@ == self.ast().exprs[id@].0,
    {
        Ok(self.ctx.get_expr(id).unwrap())
    }

    pub fn get_module(&self, id: ModId) -> (r: Result<&Module, ParserErr>)
        requires
            id@ < self.ast().mods.len(),
        ensures
            r matches Ok(m) && m@ == self.ast().mods[id@].0,
    {
        Ok(self.ctx.get_module(id).unwrap())
    }

    pub fn get_item(&self, id: ItemId) -> (r: Result<&Item, ParserErr>)
        requires
            id@ < self.ast().items.len(),
        ensures
            r matches Ok(i) && i@ == self.ast().items[id@].0,
    {
        Ok(self.ctx.get_item(id).unwrap())
    }

    pub fn get_stmt(&self, id: StmtId) -> (r: Result<&Stmt, ParserErr>)
        requires
            id@ < self.ast().stmts.len(),
        ensures
            r matches Ok(s) && s@ == self.ast().stmts[id@].0,
    {
        Ok(self.ctx.get_stmt(id).unwrap())
    }
}


// ---------------------------------------------------------------------------
// Copies of nodes
// ---------------------------------------------------------------------------

impl Clone for TypeSpecifier {
    fn clone(&self) -> (r: Self)
        ensures
            r@ == self@,
        decreases self,
    {
        match self {
            TypeSpecifier::Base(s) => TypeSpecifier::Base(s.clone()),
            TypeSpecifier::Pointer(b) => TypeSpecifier::Pointer(Box::new((**b).clone())),
        }
    }
}

impl Clone for Block {
    fn clone(&self) -> (r: Self)
        ensures
            r@ == self@,
    {
        let stmts = self.stmts.clone();
        assert forall|i: int| 0 <= i < stmts@.len() implies stmts@[i] == self.stmts@[i] by {
            assert(cloned::<StmtId>(self.stmts@[i], stmts@[i]));
        }
        assert(stmts@ =~= self.stmts@);
        Block { stmts: stmts }
    }
}

fn clone_ids(ids: &Vec<ExprId>) -> (r: Vec<ExprId>)
    ensures
        r@ == ids@,
{
    let r = ids.clone();
    assert forall|i: int| 0 <= i < r@.len() implies r@[i] == ids@[i] by {
        assert(cloned::<ExprId>(ids@[i], r@[i]));
    }
    assert(r@ =~= ids@);
    r
}

fn clone_opt_type(t: &Option<TypeSpecifier>) -> (r: Option<TypeSpecifier>)
    ensures
        opt_type_view(r) == opt_type_view(*t),
{
    match t {
        Some(t) => Some(t.clone()),
        None => None,
    }
}

pub(crate) fn clone_opt_block(b: &Option<Block>) -> (r: Option<Block>)
    ensures
        opt_block_view(r) == opt_block_view(*b),
{
    match b {
        Some(b) => Some(b.clone()),
        None => None,
    }
}

impl Clone for Expr {
    fn clone(&self) -> (r: Self)
        ensures
            r@ == self@,
    {
        match self {
            Expr::Binop(b) => Expr::Binop(Binop { left: b.left, right: b.right, kind: b.kind }),
            Expr::Symbol(s) => Expr::Symbol(Symbol { symbol: s.symbol.clone() }),
            Expr::Number(n) => Expr::Number(Number { str: n.str.clone() }),
            Expr::FnCall(c) => Expr::FnCall(FnCall { target: c.target, args: clone_ids(&c.args) }),
            Expr::StructLit(l) => {
                let mut fields: Vec<StructLitField> = Vec::new();
                let mut i: usize = 0;
                while i < l.fields.len()
                    invariant
                        i <= l.fields@.len(),
                        lit_fields_view(fields@) == lit_fields_view(l.fields@).take(i as int),
                    decreases l.fields@.len() - i,
                {
                    let ghost before = fields@;
                    fields.push(StructLitField { name: l.fields[i].name.clone(), expr: l.fields[i].expr });
                    assert(lit_fields_view(fields@) =~= lit_fields_view(l.fields@).take(i + 1)) by {
                        assert(lit_fields_view(fields@) =~= lit_fields_view(before).push((l.fields@[i as int].name@, l.fields@[i as int].expr@)));
                    }
                    i += 1;
                }
                assert(lit_fields_view(l.fields@).take(l.fields@.len() as int) =~= lit_fields_view(l.fields@));
                Expr::StructLit(StructLit { ty: l.ty.clone(), fields: fields })
            },
            Expr::FieldAccess(f) => Expr::FieldAccess(FieldAccess { target: f.target, field_name: f.field_name.clone() }),
        }
    }
}

impl Clone for Stmt {
    fn clone(&self) -> (r: Self)
        ensures
            r@ == self@,
    {
        match self {
            Stmt::IfStmt(s) => {
                let mut alts: Vec<IfElseAltCond> = Vec::new();
                let mut i: usize = 0;
                while i < s.alt.len()
                    invariant
                        i <= s.alt@.len(),
                        alts_view(alts@) == alts_view(s.alt@).take(i as int),
                    decreases s.alt@.len() - i,
                {
                    let ghost before = alts@;
                    alts.push(IfElseAltCond { cond: s.alt[i].cond, block: s.alt[i].block.clone() });
                    assert(alts_view(alts@) =~= alts_view(s.alt@).take(i + 1)) by {
                        assert(alts_view(alts@) =~= alts_view(before).push((s.alt@[i as int].cond@, s.alt@[i as int].block@)));
                    }
                    i += 1;
                }
                assert(alts_view(s.alt@).take(s.alt@.len() as int) =~= alts_view(s.alt@));
                Stmt::IfStmt(IfStmt {
                    cond: s.cond,
                    block: s.block.clone(),
                    alt: alts,
                    else_block: clone_opt_block(&s.else_block),
                })
            },
            Stmt::VarDec(v) => Stmt::VarDec(VarDec { s: v.s.clone(), ty: clone_opt_type(&v.ty), val: v.val }),
            Stmt::Expr(e) => Stmt::Expr(*e),
            Stmt::Assignment(a) => Stmt::Assignment(Assignment { left: a.left, right: a.right, kind: a.kind }),
            Stmt::Return(e) => Stmt::Return(*e),
        }
    }
}

impl Clone for Item {
    fn clone(&self) -> (r: Self)
        ensures
            r@ == self@,
    {
        match self {
            Item::FnDec(f) => {
                let mut args: Vec<FnDecArg> = Vec::new();
                let mut i: usize = 0;
                while i < f.args.len()
                    invariant
                        i <= f.args@.len(),
                        args_view(args@) == args_view(f.args@).take(i as int),
                    decreases f.args@.len() - i,
                {
                    let ghost before = args@;
                    args.push(FnDecArg { name: f.args[i].name.clone(), ty: f.args[i].ty.clone() });
                    assert(args_view(args@) =~= args_view(f.args@).take(i + 1)) by {
                        assert(args_view(args@) =~= args_view(before).push((f.args@[i as int].name@, f.args@[i as int].ty@)));
                    }
                    i += 1;
                }
                assert(args_view(f.args@).take(f.args@.len() as int) =~= args_view(f.args@));
                Item::FnDec(FnDec {
                    name: f.name.clone(),
                    args: args,
                    ret_ty: clone_opt_type(&f.ret_ty),
                    body: clone_opt_block(&f.body),
                })
            },
            Item::StructDec(d) => {
                let mut fields: Vec<StructField> = Vec::new();
                let mut i: usize = 0;
                while i < d.fields.len()
                    invariant
                        i <= d.fields@.len(),
                        fields_view(fields@) == fields_view(d.fields@).take(i as int),
                    decreases d.fields@.len() - i,
                {
                    let ghost before = fields@;
                    fields.push(StructField { name: d.fields[i].name.clone(), ty: d.fields[i].ty.clone() });
                    assert(fields_view(fields@) =~= fields_view(d.fields@).take(i + 1)) by {
                        assert(fields_view(fields@) =~= fields_view(before).push((d.fields@[i as int].name@, d.fields@[i as int].ty@)));
                    }
                    i += 1;
                }
                assert(fields_view(d.fields@).take(d.fields@.len() as int) =~= fields_view(d.fields@));
                Item::StructDec(StructDec { name: d.name.clone(), fields: fields })
            },
        }
    }
}

impl Clone for Module {
    fn clone(&self) -> (r: Self)
        ensures
            r@ == self@,
    {
        let items = self.items.clone();
        assert forall|i: int| 0 <= i < items@.len() implies items@[i] == self.items@[i] by {
            assert(cloned::<ItemId>(self.items@[i], items@[i]));
        }
        assert(items@ =~= self.items@);
        Module { items: items }
    }
}

} // verus!
