use std::collections::HashMap;

use vstd::prelude::*;

use crate::lexer::{self, Span};
use crate::ordering;
use crate::parser::{self, Ast, ExprNode, ItemNode, StmtNode};
use crate::symbols::{self, Object, ObjectId, Scope, Type, TypeId, TypeView};
use crate::text::{decimal, push_decimal, push_str};
use crate::type_checker::{self, TypeCheckFailure, TypeCheckFailureView, TypeChecker};

verus! {

broadcast use {vstd::std_specs::hash::group_hash_axioms, crate::parser::group_id_bounds};

/// Everything the compiler knows of a program: the syntax trees of its
/// modules, the objects and types that names resolve to, and which
/// expressions, declarations and items refer to which objects and types.
pub struct Context {
    stmts: Vec<(parser::Stmt, Span)>,
    exprs: Vec<(parser::Expr, Span)>,
    items: Vec<(parser::Item, Span)>,
    mods: Vec<(parser::Module, Span)>,
    expr_refs: HashMap<usize, ObjectId>,
    item_refs: HashMap<usize, ObjectId>,
    vardec_refs: HashMap<usize, ObjectId>,
    expr_ty_refs: HashMap<usize, TypeId>,
    objects: Vec<Object>,
    types: Vec<Type>,
    base_scope: Scope,
}

/// What a context holds besides its syntax trees.
pub struct ContextRest {
    pub expr_refs: Map<usize, ObjectId>,
    pub item_refs: Map<usize, ObjectId>,
    pub vardec_refs: Map<usize, ObjectId>,
    pub expr_ty_refs: Map<usize, TypeId>,
    pub objects: Seq<symbols::ObjectView>,
    pub types: Seq<TypeView>,
    pub base_scope: Scope,
}

/// The message of a lookup of a missing node: `<what> <Kind>Id(<n>) doesn't exist`.
pub open spec fn missing_message(what: Seq<char>, kind: Seq<char>, n: int) -> Seq<char> {
    what + " "@ + kind + "Id("@ + decimal(n as nat) + ") doesn't exist"@
}

fn missing(what: &str, kind: &str, n: usize) -> (r: String)
    ensures
        r@ == missing_message(what@, kind@, n as int),
{
    let mut r = String::from_str(what);
    push_str(&mut r, " ");
    push_str(&mut r, kind);
    push_str(&mut r, "Id(");
    push_decimal(&mut r, n);
    push_str(&mut r, ") doesn't exist");
    r
}

/// The first position at or after `i` that holds `t`.
pub open spec fn find_from(ts: Seq<TypeView>, t: TypeView, i: int) -> Option<int>
    decreases ts.len() - i,
{
    if i < 0 || i >= ts.len() {
        None
    } else if ts[i] == t {
        Some(i)
    } else {
        find_from(ts, t, i + 1)
    }
}

/// Interning `t` among the types `ts`: the position of the first equal
/// type, or `t` added at the end.
pub open spec fn intern_spec(ts: Seq<TypeView>, t: TypeView) -> (int, Seq<TypeView>) {
    match find_from(ts, t, 0) {
        Some(i) => (i, ts),
        None => (ts.len() as int, ts.push(t)),
    }
}

pub proof fn lemma_find_from(ts: Seq<TypeView>, t: TypeView, i: int)
    requires
        0 <= i,
    ensures
        find_from(ts, t, i) matches Some(j) ==> i <= j < ts.len() && ts[j] == t && forall|k: int|
            i <= k < j ==> ts[k] != t,
        find_from(ts, t, i) is None ==> forall|k: int| i <= k < ts.len() ==> ts[k] != t,
    decreases ts.len() - i,
{
    if i < ts.len() && ts[i] != t {
        lemma_find_from(ts, t, i + 1);
    }
}

/// Interning the same type twice gives the same id, and the second time
/// adds nothing.
pub proof fn law_intern_idempotent(ts: Seq<TypeView>, t: TypeView)
    ensures
        intern_spec(intern_spec(ts, t).1, t) == intern_spec(ts, t),
{
    lemma_find_from(ts, t, 0);
    let ts2 = intern_spec(ts, t).1;
    lemma_find_from(ts2, t, 0);
    if find_from(ts, t, 0) is None {
        assert(ts2[ts.len() as int] == t);
        if let Some(j) = find_from(ts2, t, 0) {
            if j < ts.len() {
                assert(ts2[j] == ts[j]);
            }
            assert(j == ts.len());
        }
    }
}

/// Interning keeps the types there were, and the interned id holds a type
/// equal to the one interned; among types that are all different, interning
/// adds no second equal one.
pub proof fn law_intern_keeps_types_distinct(ts: Seq<TypeView>, t: TypeView)
    ensures
        ({
            let (id, ts2) = intern_spec(ts, t);
            &&& ts.is_prefix_of(ts2)
            &&& 0 <= id < ts2.len()
            &&& ts2[id] == t
            &&& ts.no_duplicates() ==> ts2.no_duplicates()
        }),
{
    lemma_find_from(ts, t, 0);
    let ts2 = intern_spec(ts, t).1;
    assert(ts.is_prefix_of(ts2)) by {
        assert(ts2.subrange(0, ts.len() as int) =~= ts);
    }
    if ts.no_duplicates() && find_from(ts, t, 0) is None {
        assert forall|i: int, j: int| 0 <= i < ts2.len() && 0 <= j < ts2.len() && i != j implies ts2[i]
            != ts2[j] by {
            if i < ts.len() && j < ts.len() {
            } else if i < ts.len() {
                assert(ts[i] != t);
            } else if j < ts.len() {
                assert(ts[j] != t);
            }
        }
    }
}

/// The records `rest` after `new_expr_ref` has recorded each of `writes`
/// (an expression id and an object), in order.
pub open spec fn expr_refs_written(rest: ContextRest, writes: Seq<(usize, ObjectId)>) -> ContextRest
    decreases writes.len(),
{
    if writes.len() == 0 {
        rest
    } else {
        let r = expr_refs_written(rest, writes.drop_last());
        ContextRest { expr_refs: r.expr_refs.insert(writes.last().0, writes.last().1), ..r }
    }
}

/// The records `rest` after `new_expr_ty_ref` has recorded each of `writes`
/// (an expression id and a type), in order.
pub open spec fn expr_ty_refs_written(rest: ContextRest, writes: Seq<(usize, TypeId)>) -> ContextRest
    decreases writes.len(),
{
    if writes.len() == 0 {
        rest
    } else {
        let r = expr_ty_refs_written(rest, writes.drop_last());
        ContextRest { expr_ty_refs: r.expr_ty_refs.insert(writes.last().0, writes.last().1), ..r }
    }
}

/// After a series of `new_expr_ref` calls, the object recorded for an
/// expression is that of the last call for it; an expression that no call
/// names keeps what it had; and nothing but the expression references
/// changes.
pub proof fn law_last_expr_ref_write_wins(rest: ContextRest, writes: Seq<(usize, ObjectId)>, k: usize)
    ensures
        ({
            let after = expr_refs_written(rest, writes);
            &&& after == ContextRest { expr_refs: after.expr_refs, ..rest }
            &&& forall|i: int|
                0 <= i < writes.len() && writes[i].0 == k && (forall|j: int|
                    i < j < writes.len() ==> writes[j].0 != k) ==> after.expr_refs.contains_key(k)
                    && after.expr_refs[k] == writes[i].1
            &&& (forall|j: int| 0 <= j < writes.len() ==> writes[j].0 != k) ==> (after.expr_refs.contains_key(k)
                == rest.expr_refs.contains_key(k) && (rest.expr_refs.contains_key(k) ==> after.expr_refs[k]
                == rest.expr_refs[k]))
        }),
    decreases writes.len(),
{
    if writes.len() > 0 {
        let w = writes.drop_last();
        law_last_expr_ref_write_wins(rest, w, k);
        assert forall|i: int|
            0 <= i < writes.len() && writes[i].0 == k && (forall|j: int|
                i < j < writes.len() ==> writes[j].0 != k) implies expr_refs_written(rest, writes).expr_refs.contains_key(k)
                && expr_refs_written(rest, writes).expr_refs[k] == writes[i].1 by {
            if i < writes.len() - 1 {
                assert(w[i] == writes[i]);
                assert(writes[writes.len() - 1].0 != k);
                assert forall|j: int| i < j < w.len() implies w[j].0 != k by {
                    assert(w[j] == writes[j]);
                }
            }
        }
        if forall|j: int| 0 <= j < writes.len() ==> writes[j].0 != k {
            assert forall|j: int| 0 <= j < w.len() implies w[j].0 != k by {
                assert(w[j] == writes[j]);
            }
            assert(writes[writes.len() - 1].0 != k);
        }
    }
}

/// After a series of `new_expr_ty_ref` calls, the type recorded for an
/// expression is that of the last call for it; an expression that no call
/// names keeps what it had; and nothing but the expression types changes.
pub proof fn law_last_expr_ty_ref_write_wins(rest: ContextRest, writes: Seq<(usize, TypeId)>, k: usize)
    ensures
        ({
            let after = expr_ty_refs_written(rest, writes);
            &&& after == ContextRest { expr_ty_refs: after.expr_ty_refs, ..rest }
            &&& forall|i: int|
                0 <= i < writes.len() && writes[i].0 == k && (forall|j: int|
                    i < j < writes.len() ==> writes[j].0 != k) ==> after.expr_ty_refs.contains_key(k)
                    && after.expr_ty_refs[k] == writes[i].1
            &&& (forall|j: int| 0 <= j < writes.len() ==> writes[j].0 != k) ==> (after.expr_ty_refs.contains_key(k)
                == rest.expr_ty_refs.contains_key(k) && (rest.expr_ty_refs.contains_key(k) ==> after.expr_ty_refs[k]
                == rest.expr_ty_refs[k]))
        }),
    decreases writes.len(),
{
    if writes.len() > 0 {
        let w = writes.drop_last();
        law_last_expr_ty_ref_write_wins(rest, w, k);
        assert forall|i: int|
            0 <= i < writes.len() && writes[i].0 == k && (forall|j: int|
                i < j < writes.len() ==> writes[j].0 != k) implies expr_ty_refs_written(rest, writes).expr_ty_refs.contains_key(k)
                && expr_ty_refs_written(rest, writes).expr_ty_refs[k] == writes[i].1 by {
            if i < writes.len() - 1 {
                assert(w[i] == writes[i]);
                assert(writes[writes.len() - 1].0 != k);
                assert forall|j: int| i < j < w.len() implies w[j].0 != k by {
                    assert(w[j] == writes[j]);
                }
            }
        }
        if forall|j: int| 0 <= j < writes.len() ==> writes[j].0 != k {
            assert forall|j: int| 0 <= j < w.len() implies w[j].0 != k by {
                assert(w[j] == writes[j]);
            }
            assert(writes[writes.len() - 1].0 != k);
        }
    }
}

/// A node added to an arena is found under the id it was given (the number
/// of nodes before it), and every node before it stays as it was.
pub proof fn law_added_node_is_found(a: Ast, e: ExprNode, s: StmtNode, i: ItemNode, m: Seq<int>, sp: Span)
    ensures
        a.with_expr(e, sp).exprs[a.exprs.len() as int] == (e, sp),
        a.with_stmt(s, sp).stmts[a.stmts.len() as int] == (s, sp),
        a.with_item(i, sp).items[a.items.len() as int] == (i, sp),
        a.with_mod(m, sp).mods[a.mods.len() as int] == (m, sp),
        forall|k: int| 0 <= k < a.exprs.len() ==> #[trigger] a.with_expr(e, sp).exprs[k] == a.exprs[k],
        forall|k: int| 0 <= k < a.stmts.len() ==> #[trigger] a.with_stmt(s, sp).stmts[k] == a.stmts[k],
        forall|k: int| 0 <= k < a.items.len() ==> #[trigger] a.with_item(i, sp).items[k] == a.items[k],
        forall|k: int| 0 <= k < a.mods.len() ==> #[trigger] a.with_mod(m, sp).mods[k] == a.mods[k],
{
}

impl Context {
    pub closed spec fn ast(&self) -> Ast {
        Ast {
            exprs: self.exprs@.map_values(|p: (parser::Expr, Span)| (p.0@, p.1)),
            stmts: self.stmts@.map_values(|p: (parser::Stmt, Span)| (p.0@, p.1)),
            items: self.items@.map_values(|p: (parser::Item, Span)| (p.0@, p.1)),
            mods: self.mods@.map_values(|p: (parser::Module, Span)| (p.0@, p.1)),
        }
    }

    pub closed spec fn rest(&self) -> ContextRest {
        ContextRest {
            expr_refs: self.expr_refs@,
            item_refs: self.item_refs@,
            vardec_refs: self.vardec_refs@,
            expr_ty_refs: self.expr_ty_refs@,
            objects: self.objects@.map_values(|o: Object| o@),
            types: self.types@.map_values(|t: Type| t@),
            base_scope: self.base_scope,
        }
    }

    /// The base scope holds what it should (each of its names of one kind only).
    pub open spec fn wf(&self) -> bool {
        self.rest().base_scope.wf()
    }

    pub fn new() -> (r: Self)
        ensures
            r.wf(),
            r.ast() == (Ast { exprs: seq![], stmts: seq![], items: seq![], mods: seq![] }),
            r.rest().expr_refs.is_empty(),
            r.rest().item_refs.is_empty(),
            r.rest().vardec_refs.is_empty(),
            r.rest().expr_ty_refs.is_empty(),
            r.rest().objects.len() == 0,
            r.rest().types == seq![TypeView::I32, TypeView::F32],
            r.rest().base_scope@ == (symbols::ScopeView {
                types: Map::<Seq<char>, TypeId>::empty().insert("i32"@, TypeId(0)).insert(
                    "f32"@,
                    TypeId(1),
                ),
                ..symbols::empty_scope(None)
            }),
    {
        let mut s = Self {
            stmts: Vec::new(),
            exprs: Vec::new(),
            items: Vec::new(),
            mods: Vec::new(),
            expr_refs: HashMap::new(),
            item_refs: HashMap::new(),
            vardec_refs: HashMap::new(),
            expr_ty_refs: HashMap::new(),
            objects: Vec::new(),
            types: Vec::new(),
            base_scope: symbols::Scope::new(None),
        };
        let mut tid = s.declare_type(symbols::Type::I32);
        let r1 = s.base_scope.declare_type(String::from_str("i32"), tid);
        tid = s.declare_type(symbols::Type::F32);
        proof {
            reveal_strlit("i32");
            reveal_strlit("f32");
            assert("i32"@[0] != "f32"@[0]);
        }
        let r2 = s.base_scope.declare_type(String::from_str("f32"), tid);
        assert(s.ast().exprs =~= seq![]);
        assert(s.ast().stmts =~= seq![]);
        assert(s.ast().items =~= seq![]);
        assert(s.ast().mods =~= seq![]);
        assert(s.rest().types =~= seq![TypeView::I32, TypeView::F32]);
        assert(s.rest().base_scope@.types =~= Map::<Seq<char>, TypeId>::empty().insert("i32"@, TypeId(0)).insert(
            "f32"@,
            TypeId(1),
        ));
        assert(s.rest().base_scope@.type_forward_decs =~= Map::<Seq<char>, TypeId>::empty());
        s
    }

    /// Records that expression `exprid` refers to object `objectid`.
    pub fn new_expr_ref(&mut self, exprid: parser::ExprId, objectid: ObjectId)
        ensures
            final(self).ast() == old(self).ast(),
            final(self).rest() == (ContextRest {
                expr_refs: old(self).rest().expr_refs.insert(exprid@ as usize, objectid),
                ..old(self).rest()
            }),
    {
        self.expr_refs.insert(exprid.id(), objectid);
    }

    /// Records that item `itemid` declares object `objectid`.
    pub fn new_item_ref(&mut self, itemid: parser::ItemId, objectid: ObjectId)
        ensures
            final(self).ast() == old(self).ast(),
            final(self).rest() == (ContextRest {
                item_refs: old(self).rest().item_refs.insert(itemid@ as usize, objectid),
                ..old(self).rest()
            }),
    {
        self.item_refs.insert(itemid.id(), objectid);
    }

    /// Records that the declaration statement `stmtid` declares object `objectid`.
    pub fn new_vardec_ref(&mut self, stmtid: parser::StmtId, objectid: ObjectId)
        ensures
            final(self).ast() == old(self).ast(),
            final(self).rest() == (ContextRest {
                vardec_refs: old(self).rest().vardec_refs.insert(stmtid@ as usize, objectid),
                ..old(self).rest()
            }),
    {
        self.vardec_refs.insert(stmtid.id(), objectid);
    }

    /// The object that expression `exprid` refers to, if recorded.
    pub(crate) fn find_expr_ref(&self, exprid: parser::ExprId) -> (r: Option<ObjectId>)
        ensures
            r == (if self.rest().expr_refs.contains_key(exprid@ as usize) {
                Some(self.rest().expr_refs[exprid@ as usize])
            } else {
                None::<ObjectId>
            }),
    {
        match self.expr_refs.get(&exprid.id()) {
            Some(v) => Some(*v),
            None => None,
        }
    }

    /// The object that expression `exprid` refers to. It must have been recorded.
    pub fn get_expr_ref(&self, exprid: parser::ExprId) -> (r: Option<ObjectId>)
        requires
            self.rest().expr_refs.contains_key(exprid@ as usize),
        ensures
            r == Some(self.rest().expr_refs[exprid@ as usize]),
    {
        self.find_expr_ref(exprid)
    }

    /// The object that item `itemid` declares, if recorded.
    pub(crate) fn find_item_ref(&self, itemid: parser::ItemId) -> (r: Option<ObjectId>)
        ensures
            r == (if self.rest().item_refs.contains_key(itemid@ as usize) {
                Some(self.rest().item_refs[itemid@ as usize])
            } else {
                None::<ObjectId>
            }),
    {
        match self.item_refs.get(&itemid.id()) {
            Some(v) => Some(*v),
            None => None,
        }
    }

    /// The object that item `itemid` declares. It must have been recorded.
    pub fn get_item_ref(&self, itemid: parser::ItemId) -> (r: Option<ObjectId>)
        requires
            self.rest().item_refs.contains_key(itemid@ as usize),
        ensures
            r == Some(self.rest().item_refs[itemid@ as usize]),
    {
        self.find_item_ref(itemid)
    }

    /// The object that the declaration `stmtid` declares, if recorded.
    pub fn get_vardec_ref(&self, stmtid: parser::StmtId) -> (r: Option<ObjectId>)
        ensures
            r == (if self.rest().vardec_refs.contains_key(stmtid@ as usize) {
                Some(self.rest().vardec_refs[stmtid@ as usize])
            } else {
                None::<ObjectId>
            }),
    {
        match self.vardec_refs.get(&stmtid.id()) {
            Some(v) => Some(*v),
            None => None,
        }
    }

    /// Records that expression `exprid` has type `typeid`.
    pub fn new_expr_ty_ref(&mut self, exprid: parser::ExprId, typeid: TypeId)
        ensures
            final(self).ast() == old(self).ast(),
            final(self).rest() == (ContextRest {
                expr_ty_refs: old(self).rest().expr_ty_refs.insert(exprid@ as usize, typeid),
                ..old(self).rest()
            }),
    {
        self.expr_ty_refs.insert(exprid.id(), typeid);
    }

    /// The type recorded for expression `exprid`, if recorded.
    pub(crate) fn find_expr_ty_ref(&self, exprid: parser::ExprId) -> (r: Option<TypeId>)
        ensures
            r == (if self.rest().expr_ty_refs.contains_key(exprid@ as usize) {
                Some(self.rest().expr_ty_refs[exprid@ as usize])
            } else {
                None::<TypeId>
            }),
    {
        match self.expr_ty_refs.get(&exprid.id()) {
            Some(v) => Some(*v),
            None => None,
        }
    }

    /// The type recorded for expression `exprid`. It must have been recorded.
    pub fn get_expr_ty_ref(&self, exprid: parser::ExprId) -> (r: Option<TypeId>)
        requires
            self.rest().expr_ty_refs.contains_key(exprid@ as usize),
        ensures
            r == Some(self.rest().expr_ty_refs[exprid@ as usize]),
    {
        self.find_expr_ty_ref(exprid)
    }

    /// Adds a statement; its id is the number of statements before it.
    pub fn new_stmt(&mut self, stmt: parser::Stmt, span: Span) -> (r: parser::StmtId)
        ensures
            r@ == old(self).ast().stmts.len(),
            final(self).ast() == (Ast {
                stmts: old(self).ast().stmts.push((stmt@, span)),
                ..old(self).ast()
            }),
            final(self).rest() == old(self).rest(),
    {
        let ghost old_stmts = self.stmts@;
        self.stmts.push((stmt, span));
        proof {
            assert(self.ast().stmts =~= old(self).ast().stmts.push((stmt@, span)));
        }
        return parser::StmtId::new(self.stmts.len() - 1);
    }

    /// Adds an expression; its id is the number of expressions before it.
    pub fn new_expr(&mut self, expr: parser::Expr, span: Span) -> (r: parser::ExprId)
        ensures
            r@ == old(self).ast().exprs.len(),
            final(self).ast() == (Ast {
                exprs: old(self).ast().exprs.push((expr@, span)),
                ..old(self).ast()
            }),
            final(self).rest() == old(self).rest(),
    {
        self.exprs.push((expr, span));
        proof {
            assert(self.ast().exprs =~= old(self).ast().exprs.push((expr@, span)));
        }
        return parser::ExprId::new(self.exprs.len() - 1);
    }

    /// Adds an item; its id is the number of items before it.
    pub fn new_item(&mut self, item: parser::Item, span: Span) -> (r: parser::ItemId)
        ensures
            r@ == old(self).ast().items.len(),
            final(self).ast() == (Ast {
                items: old(self).ast().items.push((item@, span)),
                ..old(self).ast()
            }),
            final(self).rest() == old(self).rest(),
    {
        self.items.push((item, span));
        proof {
            assert(self.ast().items =~= old(self).ast().items.push((item@, span)));
        }
        return parser::ItemId::new(self.items.len() - 1);
    }

    /// Adds a module; its id is the number of modules before it.
    pub fn new_mod(&mut self, m: parser::Module, span: Span) -> (r: parser::ModId)
        ensures
            r@ == old(self).ast().mods.len(),
            final(self).ast() == (Ast {
                mods: old(self).ast().mods.push((m@, span)),
                ..old(self).ast()
            }),
            final(self).rest() == old(self).rest(),
    {
        self.mods.push((m, span));
        proof {
            assert(self.ast().mods =~= old(self).ast().mods.push((m@, span)));
        }
        return parser::ModId::new(self.mods.len() - 1);
    }

    pub fn get_expr(&self, id: parser::ExprId) -> (r: Result<&parser::Expr, String>)
        ensures
            match r {
                Ok(e) => id@ < self.ast().exprs.len() && e@ == self.ast().exprs[id@].0,
                Err(m) => id@ >= self.ast().exprs.len() && m@ == missing_message(
                    "expr"@,
                    "Expr"@,
                    id@,
                ),
            },
    {
        if id.id() < self.exprs.len() {
            Ok(&self.exprs[id.id()].0)
        } else {
            Err(missing("expr", "Expr", id.id()))
        }
    }

    pub fn get_module(&self, id: parser::ModId) -> (r: Result<&parser::Module, String>)
        ensures
            match r {
                Ok(m) => id@ < self.ast().mods.len() && m@ == self.ast().mods[id@].0,
                Err(m) => id@ >= self.ast().mods.len() && m@ == missing_message(
                    "module"@,
                    "Mod"@,
                    id@,
                ),
            },
    {
        if id.id() < self.mods.len() {
            Ok(&self.mods[id.id()].0)
        } else {
            Err(missing("module", "Mod", id.id()))
        }
    }

    pub fn get_item(&self, id: parser::ItemId) -> (r: Result<&parser::Item, String>)
        ensures
            match r {
                Ok(i) => id@ < self.ast().items.len() && i@ == self.ast().items[id@].0,
                Err(m) => id@ >= self.ast().items.len() && m@ == missing_message(
                    "item"@,
                    "Item"@,
                    id@,
                ),
            },
    {
        if id.id() < self.items.len() {
            Ok(&self.items[id.id()].0)
        } else {
            Err(missing("item", "Item", id.id()))
        }
    }

    pub fn get_stmt(&self, id: parser::StmtId) -> (r: Result<&parser::Stmt, String>)
        ensures
            match r {
                Ok(s) => id@ < self.ast().stmts.len() && s@ == self.ast().stmts[id@].0,
                Err(m) => id@ >= self.ast().stmts.len() && m@ == missing_message(
                    "stmt"@,
                    "Stmt"@,
                    id@,
                ),
            },
    {
        if id.id() < self.stmts.len() {
            Ok(&self.stmts[id.id()].0)
        } else {
            Err(missing("stmt", "Stmt", id.id()))
        }
    }

    pub fn get_object(&mut self, id: ObjectId) -> (r: Option<&Object>)
        ensures
            *final(self) == *old(self),
            match r {
                Some(o) => id.0 < old(self).rest().objects.len() && o@ == old(
                    self,
                ).rest().objects[id.0 as int],
                None => id.0 >= old(self).rest().objects.len(),
            },
    {
        if id.0 < self.objects.len() {
            Some(&self.objects[id.0])
        } else {
            None
        }
    }

    pub fn get_type(&mut self, id: TypeId) -> (r: Option<&Type>)
        ensures
            *final(self) == *old(self),
            match r {
                Some(t) => id.0 < old(self).rest().types.len() && t@ == old(
                    self,
                ).rest().types[id.0 as int],
                None => id.0 >= old(self).rest().types.len(),
            },
    {
        if id.0 < self.types.len() {
            Some(&self.types[id.0])
        } else {
            None
        }
    }

    /// The number of objects.
    pub fn objects_len(&self) -> (r: usize)
        ensures
            r == self.rest().objects.len(),
    {
        self.objects.len()
    }

    /// Adds an object; its id is the number of objects before it.
    pub fn declare_object(&mut self, obj: Object) -> (r: ObjectId)
        ensures
            r.0 == old(self).rest().objects.len(),
            final(self).ast() == old(self).ast(),
            final(self).rest() == (ContextRest {
                objects: old(self).rest().objects.push(obj@),
                ..old(self).rest()
            }),
    {
        let ghost ov = obj@;
        self.objects.push(obj);
        assert(self.rest().objects =~= old(self).rest().objects.push(ov));
        symbols::ObjectId(self.objects.len() - 1)
    }

    /// Replaces object `id`, which must exist.
    pub fn update_object(&mut self, id: ObjectId, obj: Object) -> (r: ObjectId)
        requires
            id.0 < old(self).rest().objects.len(),
        ensures
            r == id,
            final(self).ast() == old(self).ast(),
            final(self).rest() == (ContextRest {
                objects: old(self).rest().objects.update(id.0 as int, obj@),
                ..old(self).rest()
            }),
    {
        let ghost ov = obj@;
        self.objects.set(id.0, obj);
        assert(self.rest().objects =~= old(self).rest().objects.update(id.0 as int, ov));
        id
    }

    /// Replaces type `id`, which must exist.
    pub fn update_type(&mut self, id: TypeId, ty: Type) -> (r: TypeId)
        requires
            id.0 < old(self).rest().types.len(),
        ensures
            r == id,
            final(self).ast() == old(self).ast(),
            final(self).rest() == (ContextRest {
                types: old(self).rest().types.update(id.0 as int, ty@),
                ..old(self).rest()
            }),
    {
        let ghost tv = ty@;
        self.types.set(id.0, ty);
        assert(self.rest().types =~= old(self).rest().types.update(id.0 as int, tv));
        id
    }

    /// Adds a type; its id is the number of types before it.
    pub fn declare_type(&mut self, ty: Type) -> (r: TypeId)
        ensures
            r.0 == old(self).rest().types.len(),
            final(self).ast() == old(self).ast(),
            final(self).rest() == (ContextRest {
                types: old(self).rest().types.push(ty@),
                ..old(self).rest()
            }),
    {
        let ghost tv = ty@;
        self.types.push(ty);
        assert(self.rest().types =~= old(self).rest().types.push(tv));
        symbols::TypeId(self.types.len() - 1)
    }

    /// The type that `name` names in the base scope.
    pub fn base_scope_get_type(&mut self, name: &String) -> (r: Result<TypeId, String>)
        requires
            old(self).wf(),
        ensures
            *final(self) == *old(self),
            match r {
                Ok(t) => symbols::lookup_type(old(self).rest().base_scope@, name@) == Some(t),
                Err(m) => symbols::lookup_type(old(self).rest().base_scope@, name@) is None && m@
                    == "Type doesn't exist"@,
            },
    {
        match self.base_scope.get_type(name) {
            Some(t) => Ok(*t),
            None => Err(String::from_str("Type doesn't exist")),
        }
    }

    /// The id of a type equal to `ty`: the first such among the types, or a
    /// new one at the end.
    pub fn intern_type(&mut self, ty: Type) -> (r: TypeId)
        ensures
            final(self).ast() == old(self).ast(),
            r.0 == intern_spec(old(self).rest().types, ty@).0,
            final(self).rest() == (ContextRest {
                types: intern_spec(old(self).rest().types, ty@).1,
                ..old(self).rest()
            }),
    {
        let mut i: usize = 0;
        while i < self.types.len()
            invariant
                i <= self.types@.len(),
                self.rest() == old(self).rest(),
                self.ast() == old(self).ast(),
                find_from(self.rest().types, ty@, 0) == find_from(self.rest().types, ty@, i as int),
            decreases self.types@.len() - i,
        {
            if self.types[i] == ty {
                return symbols::TypeId(i);
            }
            i += 1;
        }
        self.declare_type(ty)
    }
}


/// Why a module could not be added: the stage that failed, with its failure.
pub enum ModuleError {
    /// The source is too long to be split into tokens.
    TooLong,
    Lex(lexer::LexerErr),
    Parse(parser::ParseFailure),
    Resolve(symbols::ResolveFailure),
    TypeCheck(TypeCheckFailure),
}

pub enum ModuleErrorView {
    TooLong,
    Lex(Seq<char>),
    Parse(parser::FailureView),
    Resolve(symbols::ResolveFailureView),
    TypeCheck(TypeCheckFailureView),
}

impl View for ModuleError {
    type V = ModuleErrorView;

    open spec fn view(&self) -> ModuleErrorView {
        match self {
            ModuleError::TooLong => ModuleErrorView::TooLong,
            ModuleError::Lex(lexer::LexerErr::Invalid(m)) => ModuleErrorView::Lex(m@),
            ModuleError::Parse(f) => ModuleErrorView::Parse(f@),
            ModuleError::Resolve(f) => ModuleErrorView::Resolve(f@),
            ModuleError::TypeCheck(f) => ModuleErrorView::TypeCheck(f@),
        }
    }
}

/// A failure for a node id that names no node, or for a node that contains
/// itself (a cycle in the tree), in resolution or type checking.
pub open spec fn tree_failure(e: ModuleErrorView) -> bool {
    match e {
        ModuleErrorView::Resolve(symbols::ResolveFailureView::Fault(f)) => f
            == symbols::ResolveFault::MalformedTree || f == symbols::ResolveFault::MissingNode,
        ModuleErrorView::TypeCheck(TypeCheckFailureView::Fault(f)) => f
            == type_checker::TypeCheckFault::MalformedTree || f
            == type_checker::TypeCheckFault::MissingNode,
        _ => false,
    }
}

/// Adding the module with source `code` to a context with syntax trees
/// `ast` and the rest `rest`: split into tokens, read, resolved, type
/// checked; the module's id and what the context holds after, or the first
/// stage that fails.
pub open spec fn add_module_spec(code: Seq<char>, ast: Ast, rest: ContextRest) -> Result<
    (int, Ast, ContextRest),
    ModuleErrorView,
> {
    if code.len() + 2 >= usize::MAX {
        Err(ModuleErrorView::TooLong)
    } else {
        match lexer::lex(code) {
            Err(c) => Err(ModuleErrorView::Lex(lexer::invalid_char_message(c))),
            Ok(toks) => match parser::sp_module(toks, 0, ast) {
                parser::Parsed::Failed(f) => Err(ModuleErrorView::Parse(f)),
                parser::Parsed::Read { value: m, ast: ast1, .. } => match symbols::sr_module(
                    ast1,
                    symbols::sr_start(rest),
                    m,
                ) {
                    Err(f) => Err(ModuleErrorView::Resolve(f)),
                    Ok(st) => match type_checker::tc_module(ast1, st.rest, m) {
                        Err(f) => Err(ModuleErrorView::TypeCheck(f)),
                        Ok(rest2) => Ok((m, ast1, rest2)),
                    },
                },
            },
        }
    }
}

impl Context {
    /// The number of expressions.
    pub(crate) fn expr_count(&self) -> (r: usize)
        ensures
            r == self.ast().exprs.len(),
    {
        self.exprs.len()
    }

    /// The number of statements.
    pub(crate) fn stmt_count(&self) -> (r: usize)
        ensures
            r == self.ast().stmts.len(),
    {
        self.stmts.len()
    }

    /// Adds the module whose source text is `code`: splits it into tokens,
    /// reads it, resolves its names and checks its types. Gives the module's
    /// id, or the first stage that fails. Whatever the outcome, the syntax
    /// arenas only grow, the base scope stays, the types already interned
    /// keep their ids, and no object is removed.
    pub fn add_module_source(&mut self, code: &String) -> (r: Result<parser::ModId, ModuleError>)
        requires
            old(self).wf(),
        ensures
            final(self).wf(),
            parser::ast_grown(final(self).ast(), old(self).ast()),
            final(self).rest().base_scope == old(self).rest().base_scope,
            symbols::types_grown(final(self).rest().types, old(self).rest().types),
            old(self).rest().objects.len() <= final(self).rest().objects.len(),
            match add_module_spec(code@, old(self).ast(), old(self).rest()) {
                Ok((m, ast, rest)) => r matches Ok(id) && id@ == m && final(self).ast() == ast
                    && final(self).rest() == rest,
                Err(e) => r matches Err(x) && x@ == e,
            },
            ordering::ordered(old(self).ast()) && symbols::refs_exist(old(self).rest()) ==> match r {
                Ok(_) => ordering::ordered(final(self).ast()),
                Err(x) => !tree_failure(x@),
            },
    {
        if code.unicode_len() >= usize::MAX - 2 {
            return Err(ModuleError::TooLong);
        }
        let l = match lexer::Lexer::from_code(code) {
            Ok(l) => l,
            Err(e) => return Err(ModuleError::Lex(e)),
        };
        let ghost ast0 = self.ast();
        let ghost rest0 = self.rest();
        proof {
            if ordering::ordered(ast0) {
                ordering::law_parsed_tree_is_ordered(l.tokens(), 0, ast0);
            }
        }
        let mid = match parser::Parser::try_parse(self, l) {
            Ok(m) => m,
            Err(e) => return Err(ModuleError::Parse(e)),
        };
        let ghost ast1 = self.ast();
        proof {
            if ordering::ordered(ast0) && symbols::refs_exist(rest0) {
                ordering::law_ordered_tree_is_acyclic(ast1);
                symbols::law_acyclic_tree_resolves_without_tree_faults(ast1, rest0, mid@, |i: int| i, |i: int| i);
            }
        }
        match symbols::SymbolResolver::try_resolve(self, mid) {
            Ok(()) => {},
            Err(e) => return Err(ModuleError::Resolve(e)),
        }
        proof {
            if ordering::ordered(ast0) {
                ordering::law_ordered_tree_is_acyclic(ast1);
                type_checker::law_acyclic_tree_checks_without_tree_faults(ast1, self.rest(), mid@, |i: int| i, |i: int| i);
            }
        }
        match TypeChecker::try_type_check(self, mid) {
            Ok(()) => {},
            Err(e) => return Err(ModuleError::TypeCheck(e)),
        }
        Ok(mid)
    }
}

} // verus!
