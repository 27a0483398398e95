use vstd::prelude::*;

use crate::ordering::{
    alts_ranked, block_ranked, expr_ranked, ids_below, lemma_alts_ranked_grow, lemma_block_ranked_grow,
    lemma_body_ranked, stmt_ranked, well_ranked,
};
use crate::parser::{self, Ast, ExprNode, ItemNode, StmtNode, TypeTree};
use crate::resolver::{intern_spec, Context, ContextRest};
use crate::text::{debug_escaped, debug_text, decimal, push_decimal, push_str};

verus! {

broadcast use crate::parser::group_id_bounds;

// ---------------------------------------------------------------------------
// A table from names to values
// ---------------------------------------------------------------------------

/// The map that a list of entries with distinct names stands for.
pub open spec fn table_map<V>(s: Seq<(String, V)>) -> Map<Seq<char>, V>
    decreases s.len(),
{
    if s.len() == 0 {
        Map::empty()
    } else {
        table_map(s.drop_last()).insert(s.last().0@, s.last().1)
    }
}

pub open spec fn names_distinct<V>(s: Seq<(String, V)>) -> bool {
    forall|i: int, j: int| 0 <= i < j < s.len() ==> s[i].0@ != s[j].0@
}

pub proof fn lemma_table_contains<V>(s: Seq<(String, V)>, k: Seq<char>)
    ensures
        table_map(s).contains_key(k) <==> exists|i: int| 0 <= i < s.len() && s[i].0@ == k,
    decreases s.len(),
{
    if s.len() > 0 {
        lemma_table_contains(s.drop_last(), k);
        if table_map(s.drop_last()).contains_key(k) {
            let i = choose|i: int| 0 <= i < s.drop_last().len() && s.drop_last()[i].0@ == k;
            assert(s[i].0@ == k);
        }
        if exists|i: int| 0 <= i < s.len() && s[i].0@ == k {
            let i = choose|i: int| 0 <= i < s.len() && s[i].0@ == k;
            if i < s.len() - 1 {
                assert(s.drop_last()[i].0@ == k);
            }
        }
    }
}

pub proof fn lemma_table_value<V>(s: Seq<(String, V)>, i: int)
    requires
        names_distinct(s),
        0 <= i < s.len(),
    ensures
        table_map(s).contains_key(s[i].0@),
        table_map(s)[s[i].0@] == s[i].1,
    decreases s.len(),
{
    if i < s.len() - 1 {
        lemma_table_value(s.drop_last(), i);
    }
}

/// A table from names to values, each name at most once; it stands for a
/// map from names (as character sequences) to values.
pub struct NameTable<V> {
    entries: Vec<(String, V)>,
}

impl<V: Copy> View for NameTable<V> {
    type V = Map<Seq<char>, V>;

    closed spec fn view(&self) -> Map<Seq<char>, V> {
        table_map(self.entries@)
    }
}

impl<V: Copy> NameTable<V> {
    pub closed spec fn wf(&self) -> bool {
        names_distinct(self.entries@)
    }

    pub fn new() -> (r: Self)
        ensures
            r.wf(),
            r@ == Map::<Seq<char>, V>::empty(),
    {
        NameTable { entries: Vec::new() }
    }

    /// The value of `name`, if it has one.
    pub fn get(&self, name: &String) -> (r: Option<&V>)
        requires
            self.wf(),
        ensures
            match r {
                Some(v) => self@.contains_key(name@) && *v == self@[name@],
                None => !self@.contains_key(name@),
            },
    {
        let mut i: usize = 0;
        while i < self.entries.len()
            invariant
                i <= self.entries@.len(),
                names_distinct(self.entries@),
                forall|j: int| 0 <= j < i ==> self.entries@[j].0@ != name@,
            decreases self.entries@.len() - i,
        {
            if self.entries[i].0 == *name {
                proof {
                    lemma_table_value(self.entries@, i as int);
                }
                return Some(&self.entries[i].1);
            }
            i += 1;
        }
        proof {
            lemma_table_contains(self.entries@, name@);
        }
        None
    }

    /// Gives `name`, which has no value yet, the value `v`.
    pub fn insert_new(&mut self, name: String, v: V)
        requires
            old(self).wf(),
            !old(self)@.contains_key(name@),
        ensures
            final(self).wf(),
            final(self)@ == old(self)@.insert(name@, v),
    {
        proof {
            lemma_table_contains(self.entries@, name@);
        }
        let ghost old_entries = self.entries@;
        self.entries.push((name, v));
        assert(self.entries@.drop_last() =~= old_entries);
    }

    /// Takes the value of `name` away, if it has one.
    pub fn remove(&mut self, name: &String)
        requires
            old(self).wf(),
        ensures
            final(self).wf(),
            final(self)@ == old(self)@.remove(name@),
    {
        let mut kept: Vec<(String, V)> = Vec::new();
        let mut i: usize = 0;
        let ghost s = self.entries@;
        assert(s.take(0).len() == 0);
        assert(table_map(kept@) =~= table_map(s.take(0)).remove(name@));
        while i < self.entries.len()
            invariant
                s == self.entries@,
                names_distinct(s),
                i <= s.len(),
                names_distinct(kept@),
                table_map(kept@) == table_map(s.take(i as int)).remove(name@),
            decreases s.len() - i,
        {
            let ghost before = kept@;
            assert(s.take(i + 1).drop_last() =~= s.take(i as int));
            if self.entries[i].0 != *name {
                let n = self.entries[i].0.clone();
                let v = self.entries[i].1;
                proof {
                    let k = s[i as int].0@;
                    lemma_table_contains(before, k);
                    lemma_table_contains(s.take(i as int), k);
                    if exists|j: int| 0 <= j < before.len() && before[j].0@ == k {
                        let j = choose|j: int| 0 <= j < before.len() && before[j].0@ == k;
                        assert(table_map(before).contains_key(k));
                        assert(table_map(s.take(i as int)).contains_key(k));
                        let m = choose|m: int| 0 <= m < s.take(i as int).len() && s.take(i as int)[m].0@ == k;
                        assert(s[m].0@ == k);
                    }
                }
                kept.push((n, v));
                proof {
                    assert(kept@.drop_last() =~= before);
                    assert(table_map(kept@) =~= table_map(s.take(i + 1)).remove(name@));
                }
            } else {
                assert(table_map(kept@) =~= table_map(s.take(i + 1)).remove(name@));
            }
            i += 1;
        }
        assert(s.take(s.len() as int) =~= s);
        self.entries = kept;
    }
}

// ---------------------------------------------------------------------------
// Objects and types
// ---------------------------------------------------------------------------

#[derive(Copy, Clone, Debug, Eq, Hash, PartialEq, Structural)]
pub struct TypeId(pub usize);

#[derive(Copy, Clone, Debug, Eq, Hash, PartialEq, Structural)]
pub struct ObjectId(pub usize);

#[derive(Copy, Clone, Debug, Eq, Hash, PartialEq, Structural)]
pub struct ScopeId(usize);

impl View for ScopeId {
    type V = int;

    closed spec fn view(&self) -> int {
        self.0 as int
    }
}

/// A named value (a variable or a function), with its type once known.
pub struct Object {
    pub name: String,
    pub ty: Option<TypeId>,
}

/// An object's name and type.
pub struct ObjectView {
    pub name: Seq<char>,
    pub ty: Option<TypeId>,
}

impl View for Object {
    type V = ObjectView;

    open spec fn view(&self) -> ObjectView {
        ObjectView { name: self.name@, ty: self.ty }
    }
}

impl Clone for Object {
    fn clone(&self) -> (r: Self)
        ensures
            r == *self,
    {
        Object { name: self.name.clone(), ty: self.ty }
    }
}

pub struct FnArg {
    pub name: String,
    pub ty: TypeId,
}

impl View for FnArg {
    type V = (Seq<char>, TypeId);

    open spec fn view(&self) -> (Seq<char>, TypeId) {
        (self.name@, self.ty)
    }
}

impl Clone for FnArg {
    fn clone(&self) -> (r: Self)
        ensures
            r == *self,
    {
        FnArg { name: self.name.clone(), ty: self.ty }
    }
}

impl PartialEq for FnArg {
    fn eq(&self, other: &Self) -> (r: bool) {
        self.name == other.name && self.ty == other.ty
    }
}

impl vstd::std_specs::cmp::PartialEqSpecImpl for FnArg {
    open spec fn obeys_eq_spec() -> bool {
        true
    }

    open spec fn eq_spec(&self, other: &Self) -> bool {
        self@ == other@
    }
}

pub struct Function {
    pub args: Vec<FnArg>,
    pub ret_ty: Option<TypeId>,
}

/// A function type: its arguments' names and types, and its return type.
pub struct FunctionView {
    pub args: Seq<(Seq<char>, TypeId)>,
    pub ret_ty: Option<TypeId>,
}

impl View for Function {
    type V = FunctionView;

    open spec fn view(&self) -> FunctionView {
        FunctionView { args: self.args@.map_values(|a: FnArg| a@), ret_ty: self.ret_ty }
    }
}

impl Clone for Function {
    fn clone(&self) -> (r: Self)
        ensures
            r@ == self@,
    {
        let args = self.args.clone();
        assert forall|i: int| 0 <= i < args@.len() implies args@[i] == self.args@[i] by {
            assert(cloned::<FnArg>(self.args@[i], args@[i]));
        }
        assert(args@ =~= self.args@);
        Function { args, ret_ty: self.ret_ty }
    }
}

impl PartialEq for Function {
    fn eq(&self, other: &Self) -> (r: bool) {
        if self.args.len() != other.args.len() {
            assert(self@.args.len() != other@.args.len());
            return false;
        }
        let mut i: usize = 0;
        while i < self.args.len()
            invariant
                self.args@.len() == other.args@.len(),
                i <= self.args@.len(),
                forall|j: int| 0 <= j < i ==> self.args@[j]@ == other.args@[j]@,
            decreases self.args@.len() - i,
        {
            if self.args[i] != other.args[i] {
                proof {
                    assert(self@.args[i as int] != other@.args[i as int]);
                }
                return false;
            }
            i += 1;
        }
        if self.ret_ty != other.ret_ty {
            return false;
        }
        assert(self@.args =~= other@.args);
        true
    }
}

impl vstd::std_specs::cmp::PartialEqSpecImpl for Function {
    open spec fn obeys_eq_spec() -> bool {
        true
    }

    open spec fn eq_spec(&self, other: &Self) -> bool {
        self@ == other@
    }
}

pub enum Type {
    I32,
    F32,
    /// The type of an integer literal before it is given a concrete type.
    IntLiteral,
    /// The type of a literal with a decimal point before it is given a concrete type.
    FloatLiteral,
    Function(Function),
    Pointer(TypeId),
}

pub enum TypeView {
    I32,
    F32,
    IntLiteral,
    FloatLiteral,
    Function(FunctionView),
    Pointer(TypeId),
}

impl View for Type {
    type V = TypeView;

    open spec fn view(&self) -> TypeView {
        match self {
            Type::I32 => TypeView::I32,
            Type::F32 => TypeView::F32,
            Type::IntLiteral => TypeView::IntLiteral,
            Type::FloatLiteral => TypeView::FloatLiteral,
            Type::Function(f) => TypeView::Function(f@),
            Type::Pointer(t) => TypeView::Pointer(*t),
        }
    }
}

impl Clone for Type {
    fn clone(&self) -> (r: Self)
        ensures
            r@ == self@,
    {
        match self {
            Type::I32 => Type::I32,
            Type::F32 => Type::F32,
            Type::IntLiteral => Type::IntLiteral,
            Type::FloatLiteral => Type::FloatLiteral,
            Type::Function(f) => Type::Function(f.clone()),
            Type::Pointer(t) => Type::Pointer(*t),
        }
    }
}

impl PartialEq for Type {
    fn eq(&self, other: &Self) -> (r: bool) {
        match (self, other) {
            (Type::I32, Type::I32) => true,
            (Type::F32, Type::F32) => true,
            (Type::IntLiteral, Type::IntLiteral) => true,
            (Type::FloatLiteral, Type::FloatLiteral) => true,
            (Type::Function(a), Type::Function(b)) => a == b,
            (Type::Pointer(a), Type::Pointer(b)) => a == b,
            _ => false,
        }
    }
}

impl vstd::std_specs::cmp::PartialEqSpecImpl for Type {
    open spec fn obeys_eq_spec() -> bool {
        true
    }

    open spec fn eq_spec(&self, other: &Self) -> bool {
        self@ == other@
    }
}

pub open spec fn type_is_untyped(t: TypeView) -> bool {
    t is IntLiteral || t is FloatLiteral
}

pub open spec fn type_is_float(t: TypeView) -> bool {
    t is F32 || t is FloatLiteral
}

pub open spec fn type_is_integer(t: TypeView) -> bool {
    t is I32 || t is IntLiteral
}

pub open spec fn type_is_numeric(t: TypeView) -> bool {
    type_is_float(t) || type_is_integer(t)
}

impl Type {
    /// A literal's type, not yet made concrete.
    pub fn is_untyped(&self) -> (r: bool)
        ensures
            r == type_is_untyped(self@),
    {
        match self {
            Type::IntLiteral | Type::FloatLiteral => true,
            _ => false,
        }
    }

    pub fn is_float(&self) -> (r: bool)
        ensures
            r == type_is_float(self@),
    {
        match self {
            Type::F32 | Type::FloatLiteral => true,
            _ => false,
        }
    }

    pub fn is_integer(&self) -> (r: bool)
        ensures
            r == type_is_integer(self@),
    {
        match self {
            Type::I32 | Type::IntLiteral => true,
            _ => false,
        }
    }

    pub fn is_numeric(&self) -> (r: bool)
        ensures
            r == type_is_numeric(self@),
    {
        self.is_float() || self.is_integer()
    }

    /// Whether values of the type can be operands of a binary operator.
    pub fn can_binop(&self) -> (r: bool)
        ensures
            r == type_is_numeric(self@),
    {
        self.is_numeric()
    }

    /// Whether values of the type can be the condition of an `if`.
    pub fn is_cond(&self) -> (r: bool)
        ensures
            r == type_is_numeric(self@),
    {
        self.is_numeric()
    }

    /// The function type, for a function type.
    pub fn get_fn(&self) -> (r: Result<&Function, String>)
        ensures
            match r {
                Ok(f) => self@ == TypeView::Function(f@),
                Err(m) => !(self@ is Function) && m@ == "Type is not a function"@,
            },
    {
        match self {
            Type::Function(f) => Ok(f),
            _ => Err(String::from_str("Type is not a function")),
        }
    }
}

/// How `Debug` writes a type id: `TypeId(<n>)`.
pub open spec fn type_id_debug(id: TypeId) -> Seq<char> {
    "TypeId("@ + decimal(id.0 as nat) + ")"@
}

/// How `Debug` writes a function argument.
pub open spec fn arg_debug(a: (Seq<char>, TypeId)) -> Seq<char> {
    "FnArg { name: "@ + debug_escaped(a.0) + ", ty: "@ + type_id_debug(a.1) + " }"@
}

/// How `Debug` writes the arguments of a list, separated by `, `.
pub open spec fn args_debug(args: Seq<(Seq<char>, TypeId)>) -> Seq<char>
    decreases args.len(),
{
    if args.len() == 0 {
        seq![]
    } else if args.len() == 1 {
        arg_debug(args[0])
    } else {
        args_debug(args.drop_last()) + ", "@ + arg_debug(args.last())
    }
}

/// How `Debug` writes an optional type id.
pub open spec fn opt_type_id_debug(t: Option<TypeId>) -> Seq<char> {
    match t {
        Some(id) => "Some("@ + type_id_debug(id) + ")"@,
        None => "None"@,
    }
}

/// How `Debug` writes a type.
pub open spec fn type_debug(t: TypeView) -> Seq<char> {
    match t {
        TypeView::I32 => "I32"@,
        TypeView::F32 => "F32"@,
        TypeView::IntLiteral => "IntLiteral"@,
        TypeView::FloatLiteral => "FloatLiteral"@,
        TypeView::Function(f) => "Function(Function { args: ["@ + args_debug(f.args) + "], ret_ty: "@
            + opt_type_id_debug(f.ret_ty) + " })"@,
        TypeView::Pointer(id) => "Pointer("@ + type_id_debug(id) + ")"@,
    }
}

/// Appends how `Debug` writes the type id `id`.
pub fn push_type_id(s: &mut String, id: TypeId)
    ensures
        final(s)@ == old(s)@ + type_id_debug(id),
{
    push_str(s, "TypeId(");
    push_decimal(s, id.0);
    push_str(s, ")");
    assert(s@ =~= old(s)@ + type_id_debug(id));
}

impl Type {
    /// The text that `Debug` writes for the type.
    pub fn describe(&self) -> (r: String)
        ensures
            r@ == type_debug(self@),
    {
        let mut r = String::new();
        match self {
            Type::I32 => push_str(&mut r, "I32"),
            Type::F32 => push_str(&mut r, "F32"),
            Type::IntLiteral => push_str(&mut r, "IntLiteral"),
            Type::FloatLiteral => push_str(&mut r, "FloatLiteral"),
            Type::Function(f) => {
                push_str(&mut r, "Function(Function { args: [");
                let ghost start = r@;
                let ghost args = f@.args;
                let mut i: usize = 0;
                while i < f.args.len()
                    invariant
                        i <= f.args@.len(),
                        args == f@.args,
                        r@ == start + args_debug(args.take(i as int)),
                    decreases f.args@.len() - i,
                {
                    let ghost before = r@;
                    if i > 0 {
                        push_str(&mut r, ", ");
                    }
                    push_str(&mut r, "FnArg { name: ");
                    push_str(&mut r, debug_text(&f.args[i].name).as_str());
                    push_str(&mut r, ", ty: ");
                    push_type_id(&mut r, f.args[i].ty);
                    push_str(&mut r, " }");
                    proof {
                        let t = args.take(i + 1);
                        assert(t.drop_last() =~= args.take(i as int));
                        assert(t.last() == args[i as int]);
                        assert(args[i as int] == f.args@[i as int]@);
                        if i == 0 {
                            assert(args.take(0) =~= Seq::<(Seq<char>, TypeId)>::empty());
                            assert(r@ =~= start + args_debug(t));
                        } else {
                            assert(r@ =~= start + args_debug(t));
                        }
                    }
                    i += 1;
                }
                assert(args.take(f.args@.len() as int) =~= args);
                push_str(&mut r, "], ret_ty: ");
                match f.ret_ty {
                    Some(id) => {
                        push_str(&mut r, "Some(");
                        push_type_id(&mut r, id);
                        push_str(&mut r, ")");
                    },
                    None => push_str(&mut r, "None"),
                }
                push_str(&mut r, " })");
            },
            Type::Pointer(id) => {
                push_str(&mut r, "Pointer(");
                push_type_id(&mut r, *id);
                push_str(&mut r, ")");
            },
        }
        assert(r@ =~= type_debug(self@));
        r
    }
}

// ---------------------------------------------------------------------------
// Scopes
// ---------------------------------------------------------------------------

/// The names declared in one scope, with the scope it is nested in.
pub struct Scope {
    parent: Option<ScopeId>,
    objects: NameTable<ObjectId>,
    types: NameTable<TypeId>,
    object_forward_decs: NameTable<ObjectId>,
    type_forward_decs: NameTable<TypeId>,
}

/// A scope's parent, and its four maps from names: objects, types, and
/// the objects and types declared ahead of their declarations.
pub struct ScopeView {
    pub parent: Option<int>,
    pub objects: Map<Seq<char>, ObjectId>,
    pub types: Map<Seq<char>, TypeId>,
    pub object_forward_decs: Map<Seq<char>, ObjectId>,
    pub type_forward_decs: Map<Seq<char>, TypeId>,
}

impl View for Scope {
    type V = ScopeView;

    closed spec fn view(&self) -> ScopeView {
        ScopeView {
            parent: scope_id_opt(self.parent),
            objects: self.objects@,
            types: self.types@,
            object_forward_decs: self.object_forward_decs@,
            type_forward_decs: self.type_forward_decs@,
        }
    }
}

pub open spec fn scope_id_opt(p: Option<ScopeId>) -> Option<int> {
    match p {
        Some(p) => Some(p@),
        None => None,
    }
}

/// An empty scope in `parent`.
pub open spec fn empty_scope(parent: Option<int>) -> ScopeView {
    ScopeView {
        parent: parent,
        objects: Map::empty(),
        types: Map::empty(),
        object_forward_decs: Map::empty(),
        type_forward_decs: Map::empty(),
    }
}

/// The name `n` is at most one of: an object, a type, an object declared
/// ahead, a type declared ahead.
pub open spec fn name_exclusive(s: ScopeView, n: Seq<char>) -> bool {
    &&& (s.objects.contains_key(n) ==> !s.types.contains_key(n) && !s.object_forward_decs.contains_key(n)
        && !s.type_forward_decs.contains_key(n))
    &&& (s.types.contains_key(n) ==> !s.object_forward_decs.contains_key(n)
        && !s.type_forward_decs.contains_key(n))
    &&& (s.object_forward_decs.contains_key(n) ==> !s.type_forward_decs.contains_key(n))
}

/// Each name is at most one of the four kinds.
pub open spec fn names_exclusive(s: ScopeView) -> bool {
    forall|n: Seq<char>| #[trigger] name_exclusive(s, n)
}

/// The object `name` stands for here: declared, or declared ahead.
pub open spec fn lookup_object(s: ScopeView, name: Seq<char>) -> Option<ObjectId> {
    if s.objects.contains_key(name) {
        Some(s.objects[name])
    } else if s.object_forward_decs.contains_key(name) {
        Some(s.object_forward_decs[name])
    } else {
        None
    }
}

/// The type `name` stands for here: declared, or declared ahead.
pub open spec fn lookup_type(s: ScopeView, name: Seq<char>) -> Option<TypeId> {
    if s.types.contains_key(name) {
        Some(s.types[name])
    } else if s.type_forward_decs.contains_key(name) {
        Some(s.type_forward_decs[name])
    } else {
        None
    }
}

/// Declaring the object `name`: it fulfils a declaration of `name` ahead.
pub open spec fn declare_object_spec(s: ScopeView, name: Seq<char>, id: ObjectId) -> Result<
    ScopeView,
    Seq<char>,
> {
    if s.objects.contains_key(name) {
        Err("Object "@ + name + " already exists."@)
    } else if s.types.contains_key(name) {
        Err("Object "@ + name + " already exists as type."@)
    } else if s.type_forward_decs.contains_key(name) {
        Err("object "@ + name + " is expected to be a type"@)
    } else {
        Ok(
            ScopeView {
                objects: s.objects.insert(name, id),
                object_forward_decs: s.object_forward_decs.remove(name),
                ..s
            },
        )
    }
}

/// Declaring the type `name`: it fulfils a declaration of `name` ahead.
pub open spec fn declare_type_spec(s: ScopeView, name: Seq<char>, id: TypeId) -> Result<
    ScopeView,
    Seq<char>,
> {
    if s.objects.contains_key(name) {
        Err("Type "@ + name + " already exists."@)
    } else if s.types.contains_key(name) {
        Err("Type "@ + name + " already exists as type."@)
    } else if s.object_forward_decs.contains_key(name) {
        Err("Type "@ + name + " is expected to be a object"@)
    } else {
        Ok(
            ScopeView {
                types: s.types.insert(name, id),
                type_forward_decs: s.type_forward_decs.remove(name),
                ..s
            },
        )
    }
}

/// Declaring the type `name` ahead of its declaration.
pub open spec fn declare_type_forward_dec_spec(s: ScopeView, name: Seq<char>, id: TypeId) -> Result<
    ScopeView,
    Seq<char>,
> {
    if s.objects.contains_key(name) {
        Err("Type forward_dec "@ + name + " already exists as an object."@)
    } else if s.types.contains_key(name) {
        Err("Type forward_dec "@ + name + " already exists."@)
    } else if s.type_forward_decs.contains_key(name) {
        Err("Type forward_dec "@ + name + " already exists as a type forward dec."@)
    } else if s.object_forward_decs.contains_key(name) {
        Err("Type forward_dec "@ + name + " already exists as an object forward dec."@)
    } else {
        Ok(ScopeView { type_forward_decs: s.type_forward_decs.insert(name, id), ..s })
    }
}

/// Declaring the object `name` ahead of its declaration.
pub open spec fn declare_object_forward_dec_spec(
    s: ScopeView,
    name: Seq<char>,
    id: ObjectId,
) -> Result<ScopeView, Seq<char>> {
    if s.objects.contains_key(name) {
        Err("object forward_dec "@ + name + " already exists."@)
    } else if s.types.contains_key(name) {
        Err("object forward_dec "@ + name + " already exists as a type."@)
    } else if s.type_forward_decs.contains_key(name) {
        Err("object forward_dec "@ + name + " already exists as a type forward dec."@)
    } else if s.object_forward_decs.contains_key(name) {
        Err("object forward_dec "@ + name + " already exists as an object forward dec."@)
    } else {
        Ok(ScopeView { object_forward_decs: s.object_forward_decs.insert(name, id), ..s })
    }
}


/// Declaring an object makes its name stand for it, and leaves every other
/// name standing for what it stood for.
pub proof fn law_declared_object_is_found(s: ScopeView, name: Seq<char>, id: ObjectId, other: Seq<char>)
    requires
        declare_object_spec(s, name, id) is Ok,
        other != name,
    ensures
        lookup_object(declare_object_spec(s, name, id)->Ok_0, name) == Some(id),
        lookup_object(declare_object_spec(s, name, id)->Ok_0, other) == lookup_object(s, other),
        lookup_type(declare_object_spec(s, name, id)->Ok_0, other) == lookup_type(s, other),
{
}

/// Declaring a type makes its name stand for it, and leaves every other
/// name standing for what it stood for.
pub proof fn law_declared_type_is_found(s: ScopeView, name: Seq<char>, id: TypeId, other: Seq<char>)
    requires
        declare_type_spec(s, name, id) is Ok,
        other != name,
    ensures
        lookup_type(declare_type_spec(s, name, id)->Ok_0, name) == Some(id),
        lookup_type(declare_type_spec(s, name, id)->Ok_0, other) == lookup_type(s, other),
        lookup_object(declare_type_spec(s, name, id)->Ok_0, other) == lookup_object(s, other),
{
}

/// A name declared in a scope cannot be declared there again, as an object
/// or as a type.
pub proof fn law_no_redeclaration(s: ScopeView, name: Seq<char>, id: ObjectId, id2: ObjectId, t: TypeId)
    requires
        declare_object_spec(s, name, id) is Ok,
    ensures
        declare_object_spec(declare_object_spec(s, name, id)->Ok_0, name, id2) is Err,
        declare_type_spec(declare_object_spec(s, name, id)->Ok_0, name, t) is Err,
        declare_object_forward_dec_spec(declare_object_spec(s, name, id)->Ok_0, name, id2) is Err,
{
}

/// A name declared ahead stands for its placeholder until it is declared;
/// the declaration then succeeds, replaces the placeholder, and the name is
/// no longer declared ahead.
pub proof fn law_forward_declaration_fulfilled(s: ScopeView, name: Seq<char>, ahead: ObjectId, id: ObjectId)
    requires
        declare_object_forward_dec_spec(s, name, ahead) is Ok,
    ensures
        ({
            let s2 = declare_object_forward_dec_spec(s, name, ahead)->Ok_0;
            &&& lookup_object(s2, name) == Some(ahead)
            &&& declare_object_spec(s2, name, id) is Ok
            &&& lookup_object(declare_object_spec(s2, name, id)->Ok_0, name) == Some(id)
            &&& !declare_object_spec(s2, name, id)->Ok_0.object_forward_decs.contains_key(name)
        }),
{
    let s2 = declare_object_forward_dec_spec(s, name, ahead)->Ok_0;
    assert(!declare_object_spec(s2, name, id)->Ok_0.object_forward_decs.contains_key(name));
}

/// Every declaration keeps each name of one kind at most.
pub proof fn law_declarations_keep_names_exclusive(s: ScopeView, name: Seq<char>, o: ObjectId, t: TypeId)
    requires
        names_exclusive(s),
    ensures
        declare_object_spec(s, name, o) matches Ok(s2) ==> names_exclusive(s2),
        declare_type_spec(s, name, t) matches Ok(s2) ==> names_exclusive(s2),
        declare_object_forward_dec_spec(s, name, o) matches Ok(s2) ==> names_exclusive(s2),
        declare_type_forward_dec_spec(s, name, t) matches Ok(s2) ==> names_exclusive(s2),
{
    if let Ok(s2) = declare_object_spec(s, name, o) {
        assert forall|n: Seq<char>| #[trigger] name_exclusive(s2, n) by {
            assert(name_exclusive(s, n));
        }
    }
    if let Ok(s2) = declare_type_spec(s, name, t) {
        assert forall|n: Seq<char>| #[trigger] name_exclusive(s2, n) by {
            assert(name_exclusive(s, n));
        }
    }
    if let Ok(s2) = declare_object_forward_dec_spec(s, name, o) {
        assert forall|n: Seq<char>| #[trigger] name_exclusive(s2, n) by {
            assert(name_exclusive(s, n));
        }
    }
    if let Ok(s2) = declare_type_forward_dec_spec(s, name, t) {
        assert forall|n: Seq<char>| #[trigger] name_exclusive(s2, n) by {
            assert(name_exclusive(s, n));
        }
    }
}

/// `r` and the scope after the call, `after`, are what `spec` says of the
/// scope before, `before`: the new scope, or the message with the scope unchanged.
pub open spec fn declared(
    r: Result<(), String>,
    before: ScopeView,
    after: ScopeView,
    spec: Result<ScopeView, Seq<char>>,
) -> bool {
    match spec {
        Ok(s) => r is Ok && after == s,
        Err(m) => (r matches Err(e) && e@ == m) && after == before,
    }
}

impl Scope {
    pub closed spec fn tables_wf(&self) -> bool {
        &&& self.objects.wf()
        &&& self.types.wf()
        &&& self.object_forward_decs.wf()
        &&& self.type_forward_decs.wf()
    }

    pub open spec fn wf(&self) -> bool {
        self.tables_wf() && names_exclusive(self@)
    }

    pub fn new(parent: Option<ScopeId>) -> (r: Self)
        ensures
            r.wf(),
            r@ == empty_scope(scope_id_opt(parent)),
    {
        let r = Scope {
            parent: parent,
            objects: NameTable::new(),
            types: NameTable::new(),
            object_forward_decs: NameTable::new(),
            type_forward_decs: NameTable::new(),
        };
        assert(r@ =~= empty_scope(scope_id_opt(parent)));
        r
    }

    /// The type named `name` here, declared or declared ahead.
    pub fn get_type(&self, name: &String) -> (r: Option<&TypeId>)
        requires
            self.wf(),
        ensures
            match r {
                Some(t) => lookup_type(self@, name@) == Some(*t),
                None => lookup_type(self@, name@) is None,
            },
    {
        match self.types.get(name) {
            Some(t) => Some(t),
            None => self.type_forward_decs.get(name),
        }
    }

    /// The object named `name` here, declared or declared ahead.
    pub fn get_object(&self, name: &String) -> (r: Option<&ObjectId>)
        requires
            self.wf(),
        ensures
            match r {
                Some(o) => lookup_object(self@, name@) == Some(*o),
                None => lookup_object(self@, name@) is None,
            },
    {
        match self.objects.get(name) {
            Some(o) => Some(o),
            None => self.object_forward_decs.get(name),
        }
    }

    proof fn lemma_exclusive_kept(&self, old: &Scope)
        requires
            names_exclusive(old@),
            forall|n: Seq<char>| name_exclusive(old@, n) ==> #[trigger] name_exclusive(self@, n),
        ensures
            names_exclusive(self@),
    {
        assert forall|n: Seq<char>| #[trigger] name_exclusive(self@, n) by {
            assert(name_exclusive(old@, n));
        }
    }

    /// Declares the object `name`; it fulfils a declaration ahead of the same name.
    pub fn declare_object(&mut self, name: String, id: ObjectId) -> (r: Result<(), String>)
        requires
            old(self).wf(),
        ensures
            final(self).wf(),
            declared(r, old(self)@, final(self)@, declare_object_spec(old(self)@, name@, id)),
    {
        if let Some(_) = self.objects.get(&name) {
            return Err(message("Object ", &name, " already exists."));
        }
        if let Some(_) = self.types.get(&name) {
            return Err(message("Object ", &name, " already exists as type."));
        }
        if let Some(_) = self.type_forward_decs.get(&name) {
            return Err(message("object ", &name, " is expected to be a type"));
        }
        if let Some(_) = self.object_forward_decs.get(&name) {
            self.object_forward_decs.remove(&name);
        }
        proof {
            assert(self.object_forward_decs@ =~= old(self).object_forward_decs@.remove(name@));
        }
        self.objects.insert_new(name, id);
        proof {
            self.lemma_exclusive_kept(old(self));
        }
        Ok(())
    }

    /// Declares the type `name`; it fulfils a declaration ahead of the same name.
    pub fn declare_type(&mut self, name: String, id: TypeId) -> (r: Result<(), String>)
        requires
            old(self).wf(),
        ensures
            final(self).wf(),
            declared(r, old(self)@, final(self)@, declare_type_spec(old(self)@, name@, id)),
    {
        if let Some(_) = self.objects.get(&name) {
            return Err(message("Type ", &name, " already exists."));
        }
        if let Some(_) = self.types.get(&name) {
            return Err(message("Type ", &name, " already exists as type."));
        }
        if let Some(_) = self.object_forward_decs.get(&name) {
            return Err(message("Type ", &name, " is expected to be a object"));
        }
        if let Some(_) = self.type_forward_decs.get(&name) {
            self.type_forward_decs.remove(&name);
        }
        proof {
            assert(self.type_forward_decs@ =~= old(self).type_forward_decs@.remove(name@));
        }
        self.types.insert_new(name, id);
        proof {
            self.lemma_exclusive_kept(old(self));
        }
        Ok(())
    }

    /// Declares the type `name` ahead of its declaration.
    pub fn declare_type_forward_dec(&mut self, name: String, id: TypeId) -> (r: Result<(), String>)
        requires
            old(self).wf(),
        ensures
            final(self).wf(),
            declared(r, old(self)@, final(self)@, declare_type_forward_dec_spec(old(self)@, name@, id)),
    {
        if let Some(_) = self.objects.get(&name) {
            return Err(message("Type forward_dec ", &name, " already exists as an object."));
        }
        if let Some(_) = self.types.get(&name) {
            return Err(message("Type forward_dec ", &name, " already exists."));
        }
        if let Some(_) = self.type_forward_decs.get(&name) {
            return Err(message("Type forward_dec ", &name, " already exists as a type forward dec."));
        }
        if let Some(_) = self.object_forward_decs.get(&name) {
            return Err(message("Type forward_dec ", &name, " already exists as an object forward dec."));
        }
        self.type_forward_decs.insert_new(name, id);
        proof {
            self.lemma_exclusive_kept(old(self));
        }
        Ok(())
    }

    /// Declares the object `name` ahead of its declaration.
    pub fn declare_object_forward_dec(&mut self, name: String, id: ObjectId) -> (r: Result<(), String>)
        requires
            old(self).wf(),
        ensures
            final(self).wf(),
            declared(r, old(self)@, final(self)@, declare_object_forward_dec_spec(old(self)@, name@, id)),
    {
        if let Some(_) = self.objects.get(&name) {
            return Err(message("object forward_dec ", &name, " already exists."));
        }
        if let Some(_) = self.types.get(&name) {
            return Err(message("object forward_dec ", &name, " already exists as a type."));
        }
        if let Some(_) = self.type_forward_decs.get(&name) {
            return Err(message("object forward_dec ", &name, " already exists as a type forward dec."));
        }
        if let Some(_) = self.object_forward_decs.get(&name) {
            return Err(message("object forward_dec ", &name, " already exists as an object forward dec."));
        }
        self.object_forward_decs.insert_new(name, id);
        proof {
            self.lemma_exclusive_kept(old(self));
        }
        Ok(())
    }

    /// The object declared ahead under `name`, if there is one.
    pub fn is_object_foreward_dec(&self, name: &String) -> (r: Option<ObjectId>)
        requires
            self.wf(),
        ensures
            r == (if self@.object_forward_decs.contains_key(name@) {
                Some(self@.object_forward_decs[name@])
            } else {
                None
            }),
    {
        match self.object_forward_decs.get(name) {
            Some(id) => Some(*id),
            None => None,
        }
    }

    /// The type declared ahead under `name`, if there is one.
    pub fn is_type_foreward_dec(&self, name: &String) -> (r: Option<TypeId>)
        requires
            self.wf(),
        ensures
            r == (if self@.type_forward_decs.contains_key(name@) {
                Some(self@.type_forward_decs[name@])
            } else {
                None
            }),
    {
        match self.type_forward_decs.get(name) {
            Some(id) => Some(*id),
            None => None,
        }
    }
}

/// `before`, then `name`, then `after`.
pub fn message(before: &str, name: &String, after: &str) -> (r: String)
    ensures
        r@ == before@ + name@ + after@,
{
    let mut r = String::from_str(before);
    push_str(&mut r, name.as_str());
    push_str(&mut r, after);
    r
}


// ---------------------------------------------------------------------------
// Name resolution
// ---------------------------------------------------------------------------

/// The inputs on which resolution cannot go on at all.
#[derive(Clone, Copy, PartialEq, Eq, Structural)]
pub enum ResolveFault {
    /// A node id that names no node.
    MissingNode,
    /// A node that contains itself: the tree has a cycle.
    MalformedTree,
    /// A struct literal or a field access.
    UnsupportedExpression,
    /// An assignment or a `return`.
    UnsupportedStatement,
    /// A struct declaration.
    UnsupportedItem,
    /// A function with arguments.
    FunctionArguments,
    /// A function without a body.
    MissingBody,
    /// A name declared ahead for an object that does not exist.
    MissingObject,
    /// Leaving the outermost scope.
    NoParentScope,
}

/// Why resolution stopped: an error, or an input on which it cannot go on.
pub enum ResolveFailure {
    Error(String),
    Fault(ResolveFault),
}

pub enum ResolveFailureView {
    Error(Seq<char>),
    Fault(ResolveFault),
}

impl View for ResolveFailure {
    type V = ResolveFailureView;

    open spec fn view(&self) -> ResolveFailureView {
        match self {
            ResolveFailure::Error(m) => ResolveFailureView::Error(m@),
            ResolveFailure::Fault(f) => ResolveFailureView::Fault(*f),
        }
    }
}

pub open spec fn rfault<T>(f: ResolveFault) -> Result<T, ResolveFailureView> {
    Err(ResolveFailureView::Fault(f))
}

/// The state of a resolution: the scopes, the current one, and the rest of
/// the context (objects, types, and the references recorded).
pub struct RState {
    pub scopes: Seq<ScopeView>,
    pub current: int,
    pub rest: ContextRest,
}

pub open spec fn with_rest(st: RState, rest: ContextRest) -> RState {
    RState { rest: rest, ..st }
}

/// A new scope inside the current one becomes current.
pub open spec fn sr_enter(st: RState) -> RState {
    RState {
        scopes: st.scopes.push(empty_scope(Some(st.current))),
        current: st.scopes.len() as int,
        ..st
    }
}

/// The parent of the current scope becomes current.
pub open spec fn sr_exit(st: RState) -> Result<RState, ResolveFailureView> {
    if 0 <= st.current < st.scopes.len() {
        match st.scopes[st.current].parent {
            Some(p) => Ok(RState { current: p, ..st }),
            None => rfault(ResolveFault::NoParentScope),
        }
    } else {
        arbitrary()
    }
}

/// Leaving a scope just entered returns to the scope it was entered from;
/// the scope entered stays, empty, after the others.
pub proof fn law_exit_undoes_enter(st: RState)
    requires
        0 <= st.current < st.scopes.len(),
    ensures
        sr_exit(sr_enter(st)) == Ok::<RState, ResolveFailureView>(
            RState { scopes: st.scopes.push(empty_scope(Some(st.current))), ..st },
        ),
{
}

/// The object `name` stands for in scope `id` or, failing that, in the
/// scopes around it, innermost first.
pub open spec fn sr_get_object(scopes: Seq<ScopeView>, id: int, name: Seq<char>) -> Result<
    ObjectId,
    Seq<char>,
>
    decreases id,
{
    if 0 <= id < scopes.len() {
        match lookup_object(scopes[id], name) {
            Some(o) => Ok(o),
            None => match scopes[id].parent {
                Some(p) => if 0 <= p < id {
                    sr_get_object(scopes, p, name)
                } else {
                    arbitrary()
                },
                None => Err("object "@ + name + " does not exist."@),
            },
        }
    } else {
        arbitrary()
    }
}

/// The type `name` stands for in scope `id`, in the scopes around it, or
/// else in the base scope.
pub open spec fn sr_get_type(scopes: Seq<ScopeView>, id: int, name: Seq<char>, base: ScopeView) -> Result<
    TypeId,
    Seq<char>,
>
    decreases id,
{
    if 0 <= id < scopes.len() {
        match lookup_type(scopes[id], name) {
            Some(t) => Ok(t),
            None => match scopes[id].parent {
                Some(p) => if 0 <= p < id {
                    sr_get_type(scopes, p, name, base)
                } else {
                    arbitrary()
                },
                None => match lookup_type(base, name) {
                    Some(t) => Ok(t),
                    None => Err("Type doesn't exist"@),
                },
            },
        }
    } else {
        arbitrary()
    }
}

/// The type a written type stands for; a pointer type is interned.
pub open spec fn sr_type(st: RState, t: TypeTree) -> Result<(TypeId, RState), ResolveFailureView>
    decreases t,
{
    match t {
        TypeTree::Base(name) => match sr_get_type(st.scopes, st.current, name, st.rest.base_scope@) {
            Ok(id) => Ok((id, st)),
            Err(m) => Err(ResolveFailureView::Error(m)),
        },
        TypeTree::Pointer(b) => match sr_type(st, *b) {
            Err(f) => Err(f),
            Ok((base, st1)) => {
                let (id, ts) = intern_spec(st1.rest.types, TypeView::Pointer(base));
                Ok((TypeId(id as usize), with_rest(st1, ContextRest { types: ts, ..st1.rest })))
            },
        },
    }
}

/// Declares the object `name` of type `ty` in the current scope: it takes
/// the place of an object declared ahead under that name, or is a new object.
pub open spec fn sr_declare_object(st: RState, name: Seq<char>, ty: Option<TypeId>) -> Result<
    (ObjectId, RState),
    ResolveFailureView,
> {
    let sc = st.scopes[st.current];
    let o = ObjectView { name: name, ty: ty };
    let (id, rest1): (ObjectId, ContextRest) = if sc.object_forward_decs.contains_key(name) {
        let id = sc.object_forward_decs[name];
        (id, ContextRest { objects: st.rest.objects.update(id.0 as int, o), ..st.rest })
    } else {
        (ObjectId(st.rest.objects.len() as usize), ContextRest { objects: st.rest.objects.push(o), ..st.rest })
    };
    if sc.object_forward_decs.contains_key(name) && id.0 >= st.rest.objects.len() {
        rfault(ResolveFault::MissingObject)
    } else {
        match declare_object_spec(sc, name, id) {
            Ok(sc2) => Ok((id, RState { scopes: st.scopes.update(st.current, sc2), rest: rest1, ..st })),
            Err(m) => Err(ResolveFailureView::Error(m)),
        }
    }
}

/// Resolves the names in expression `e`, recording which object each
/// name refers to. `fuel` bounds how deep the walk down the tree may go:
/// an expression that contains itself runs out of it (`MalformedTree`),
/// while in a tree without cycles the depth stays below the number of
/// expressions, the fuel the walk starts with.
pub open spec fn sr_expr(ast: Ast, st: RState, e: int, fuel: nat) -> Result<RState, ResolveFailureView>
    decreases fuel, 0int, 0int,
{
    if !(0 <= e < ast.exprs.len()) {
        rfault(ResolveFault::MissingNode)
    } else if fuel == 0 {
        rfault(ResolveFault::MalformedTree)
    } else {
        match ast.exprs[e].0 {
            ExprNode::Number { .. } => Ok(st),
            ExprNode::Symbol { name } => match sr_get_object(st.scopes, st.current, name) {
                Ok(id) => Ok(
                    with_rest(
                        st,
                        ContextRest { expr_refs: st.rest.expr_refs.insert(e as usize, id), ..st.rest },
                    ),
                ),
                Err(m) => Err(ResolveFailureView::Error(m)),
            },
            ExprNode::Binop { left, right, .. } => match sr_expr(ast, st, left, (fuel - 1) as nat) {
                Err(f) => Err(f),
                Ok(st1) => sr_expr(ast, st1, right, (fuel - 1) as nat),
            },
            ExprNode::FnCall { target, args } => match sr_expr(ast, st, target, (fuel - 1) as nat) {
                Err(f) => Err(f),
                Ok(st1) => sr_args(ast, st1, args, 0, (fuel - 1) as nat),
            },
            _ => rfault(ResolveFault::UnsupportedExpression),
        }
    }
}

/// Resolves the call arguments from the `k`-th on.
pub open spec fn sr_args(ast: Ast, st: RState, args: Seq<int>, k: int, fuel: nat) -> Result<
    RState,
    ResolveFailureView,
>
    decreases fuel, 1int, args.len() - k,
{
    if 0 <= k < args.len() {
        match sr_expr(ast, st, args[k], fuel) {
            Err(f) => Err(f),
            Ok(st1) => sr_args(ast, st1, args, k + 1, fuel),
        }
    } else {
        Ok(st)
    }
}

/// Resolves a declaration statement: its type, its value, then the name it
/// declares, recording the object declared.
pub open spec fn sr_vardec(
    ast: Ast,
    st: RState,
    s: int,
    name: Seq<char>,
    ty: Option<TypeTree>,
    val: Option<int>,
) -> Result<RState, ResolveFailureView> {
    let t: Result<(Option<TypeId>, RState), ResolveFailureView> = match ty {
        Some(tt) => match sr_type(st, tt) {
            Err(f) => Err(f),
            Ok((id, st1)) => Ok((Some(id), st1)),
        },
        None => Ok((None, st)),
    };
    match t {
        Err(f) => Err(f),
        Ok((t, st1)) => {
            let v = match val {
                Some(v) => sr_expr(ast, st1, v, ast.exprs.len()),
                None => Ok(st1),
            };
            match v {
                Err(f) => Err(f),
                Ok(st2) => match sr_declare_object(st2, name, t) {
                    Err(f) => Err(f),
                    Ok((id, st3)) => Ok(
                        with_rest(
                            st3,
                            ContextRest {
                                vardec_refs: st3.rest.vardec_refs.insert(s as usize, id),
                                ..st3.rest
                            },
                        ),
                    ),
                },
            }
        },
    }
}

/// In a declaration `name := v` (or `name : type = v`), the names of the
/// value are resolved in the scopes as they stand before the declaration
/// (after its type, if any, is resolved): where the value does not resolve
/// there, the declaration fails the same way, and where the declaration
/// resolves, the references it records for the value's names are exactly
/// those that resolving the value there records, so none of them can be
/// to the object that the declaration makes.
pub proof fn law_declared_value_resolves_before_the_name(
    ast: Ast,
    st: RState,
    s: int,
    name: Seq<char>,
    ty: Option<TypeTree>,
    v: int,
)
    requires
        ty matches Some(tt) ==> sr_type(st, tt) is Ok,
    ensures
        ({
            let before = match ty {
                Some(tt) => match sr_type(st, tt) {
                    Ok((_, st1)) => st1,
                    Err(_) => st,
                },
                None => st,
            };
            &&& sr_expr(ast, before, v, ast.exprs.len()) matches Err(f) ==> sr_vardec(ast, st, s, name, ty, Some(v))
                == Err::<RState, ResolveFailureView>(f)
            &&& sr_vardec(ast, st, s, name, ty, Some(v)) matches Ok(after) ==> (sr_expr(ast, before, v, ast.exprs.len())
                matches Ok(st2) && after.rest.expr_refs == st2.rest.expr_refs)
        }),
{
}

/// Resolves statement `s`. `fuel` bounds how deep the walk into nested
/// blocks may go, as for expressions.
pub open spec fn sr_stmt(ast: Ast, st: RState, s: int, fuel: nat) -> Result<RState, ResolveFailureView>
    decreases fuel, 0int, 0int,
{
    if !(0 <= s < ast.stmts.len()) {
        rfault(ResolveFault::MissingNode)
    } else if fuel == 0 {
        rfault(ResolveFault::MalformedTree)
    } else {
        match ast.stmts[s].0 {
            StmtNode::Expr { expr } => sr_expr(ast, st, expr, ast.exprs.len()),
            StmtNode::VarDec { name, ty, val } => sr_vardec(ast, st, s, name, ty, val),
            StmtNode::If { cond, block, alts, else_block } => sr_if(
                ast,
                st,
                cond,
                block,
                alts,
                else_block,
                (fuel - 1) as nat,
            ),
            _ => rfault(ResolveFault::UnsupportedStatement),
        }
    }
}

/// Resolves an `if`: the condition and block in a scope of their own, each
/// `else if` likewise, then the `else` block in the current scope.
pub open spec fn sr_if(
    ast: Ast,
    st: RState,
    cond: int,
    block: Seq<int>,
    alts: Seq<(int, Seq<int>)>,
    else_block: Option<Seq<int>>,
    fuel: nat,
) -> Result<RState, ResolveFailureView>
    decreases fuel, 3int, 0int,
{
    match sr_expr(ast, sr_enter(st), cond, ast.exprs.len()) {
        Err(f) => Err(f),
        Ok(st2) => match sr_block(ast, st2, block, 0, fuel) {
            Err(f) => Err(f),
            Ok(st3) => match sr_exit(st3) {
                Err(f) => Err(f),
                Ok(st4) => match sr_alts(ast, st4, alts, 0, fuel) {
                    Err(f) => Err(f),
                    Ok(st5) => match else_block {
                        Some(b) => sr_block(ast, st5, b, 0, fuel),
                        None => Ok(st5),
                    },
                },
            },
        },
    }
}

/// Resolves the `else if` parts from the `k`-th on.
pub open spec fn sr_alts(ast: Ast, st: RState, alts: Seq<(int, Seq<int>)>, k: int, fuel: nat) -> Result<
    RState,
    ResolveFailureView,
>
    decreases fuel, 2int, alts.len() - k,
{
    if 0 <= k < alts.len() {
        match sr_expr(ast, sr_enter(st), alts[k].0, ast.exprs.len()) {
            Err(f) => Err(f),
            Ok(st2) => match sr_block(ast, st2, alts[k].1, 0, fuel) {
                Err(f) => Err(f),
                Ok(st3) => match sr_exit(st3) {
                    Err(f) => Err(f),
                    Ok(st4) => sr_alts(ast, st4, alts, k + 1, fuel),
                },
            },
        }
    } else {
        Ok(st)
    }
}

/// Resolves the statements of a block from the `k`-th on.
pub open spec fn sr_block(ast: Ast, st: RState, ids: Seq<int>, k: int, fuel: nat) -> Result<
    RState,
    ResolveFailureView,
>
    decreases fuel, 1int, ids.len() - k,
{
    if 0 <= k < ids.len() {
        match sr_stmt(ast, st, ids[k], fuel) {
            Err(f) => Err(f),
            Ok(st1) => sr_block(ast, st1, ids, k + 1, fuel),
        }
    } else {
        Ok(st)
    }
}

pub open spec fn fn_type(ret: Option<TypeId>) -> TypeView {
    TypeView::Function(FunctionView { args: seq![], ret_ty: ret })
}

/// Resolves a function declaration: in a scope of its own, its return type
/// and its name (for recursion), then its body; then its name in the
/// current scope. The object declared there is the result.
pub open spec fn sr_fndec(
    ast: Ast,
    st: RState,
    name: Seq<char>,
    args: Seq<(Seq<char>, TypeTree)>,
    ret: Option<TypeTree>,
    body: Option<Seq<int>>,
) -> Result<(ObjectId, RState), ResolveFailureView> {
    if args.len() > 0 {
        rfault(ResolveFault::FunctionArguments)
    } else {
        match sr_fn_signature(st, name, ret) {
            Err(f) => Err(f),
            Ok((ret_ty, st4)) => match body {
                None => rfault(ResolveFault::MissingBody),
                Some(b) => match sr_block(ast, st4, b, 0, ast.stmts.len()) {
                    Err(f) => Err(f),
                    Ok(st5) => match sr_exit(st5) {
                        Err(f) => Err(f),
                        Ok(st6) => {
                            let (i2, ts2) = intern_spec(st6.rest.types, fn_type(ret_ty));
                            let st7 = with_rest(st6, ContextRest { types: ts2, ..st6.rest });
                            sr_declare_object(st7, name, Some(TypeId(i2 as usize)))
                        },
                    },
                },
            },
        }
    }
}

/// The signature of a function without arguments, in a scope of its own:
/// its return type resolved, and its name declared there (for recursion).
/// Gives the return type and the state.
pub open spec fn sr_fn_signature(st: RState, name: Seq<char>, ret: Option<TypeTree>) -> Result<
    (Option<TypeId>, RState),
    ResolveFailureView,
> {
    let st1 = sr_enter(st);
    let r: Result<(Option<TypeId>, RState), ResolveFailureView> = match ret {
        Some(t) => match sr_type(st1, t) {
            Err(f) => Err(f),
            Ok((id, st2)) => Ok((Some(id), st2)),
        },
        None => Ok((None, st1)),
    };
    match r {
        Err(f) => Err(f),
        Ok((ret_ty, st2)) => {
            let (i1, ts1) = intern_spec(st2.rest.types, fn_type(ret_ty));
            let st3 = with_rest(st2, ContextRest { types: ts1, ..st2.rest });
            match sr_declare_object(st3, name, Some(TypeId(i1 as usize))) {
                Err(f) => Err(f),
                Ok((_, st4)) => Ok((ret_ty, st4)),
            }
        },
    }
}

/// Resolves item `i`, recording the object it declares.
pub open spec fn sr_item(ast: Ast, st: RState, i: int) -> Result<RState, ResolveFailureView> {
    if !(0 <= i < ast.items.len()) {
        rfault(ResolveFault::MissingNode)
    } else {
        match ast.items[i].0 {
            ItemNode::FnDec { name, args, ret, body } => match sr_fndec(ast, st, name, args, ret, body) {
                Err(f) => Err(f),
                Ok((id, st1)) => Ok(
                    with_rest(
                        st1,
                        ContextRest { item_refs: st1.rest.item_refs.insert(i as usize, id), ..st1.rest },
                    ),
                ),
            },
            _ => rfault(ResolveFault::UnsupportedItem),
        }
    }
}

/// Declares the name of item `i` ahead, as a new object without a type.
pub open spec fn sr_item_forward_dec(ast: Ast, st: RState, i: int) -> Result<RState, ResolveFailureView> {
    if !(0 <= i < ast.items.len()) {
        rfault(ResolveFault::MissingNode)
    } else {
        match ast.items[i].0 {
            ItemNode::FnDec { name, .. } => {
                let id = ObjectId(st.rest.objects.len() as usize);
                let rest1 = ContextRest {
                    objects: st.rest.objects.push(ObjectView { name: name, ty: None }),
                    ..st.rest
                };
                match declare_object_forward_dec_spec(st.scopes[st.current], name, id) {
                    Ok(sc) => Ok(RState { scopes: st.scopes.update(st.current, sc), rest: rest1, ..st }),
                    Err(m) => Err(ResolveFailureView::Error(m)),
                }
            },
            _ => rfault(ResolveFault::UnsupportedItem),
        }
    }
}

/// Declares ahead (when `ahead`) or resolves the items from the `k`-th on.
pub open spec fn sr_items(ast: Ast, st: RState, items: Seq<int>, k: int, ahead: bool) -> Result<
    RState,
    ResolveFailureView,
>
    decreases items.len() - k,
{
    if 0 <= k < items.len() {
        let r = if ahead {
            sr_item_forward_dec(ast, st, items[k])
        } else {
            sr_item(ast, st, items[k])
        };
        match r {
            Err(f) => Err(f),
            Ok(st1) => sr_items(ast, st1, items, k + 1, ahead),
        }
    } else {
        Ok(st)
    }
}

/// Resolves module `m`: all its items declared ahead, then each resolved.
pub open spec fn sr_module(ast: Ast, st: RState, m: int) -> Result<RState, ResolveFailureView> {
    if !(0 <= m < ast.mods.len()) {
        rfault(ResolveFault::MissingNode)
    } else {
        match sr_items(ast, st, ast.mods[m].0, 0, true) {
            Err(f) => Err(f),
            Ok(st1) => sr_items(ast, st1, ast.mods[m].0, 0, false),
        }
    }
}

/// The state a resolution starts from: one global scope, current.
pub open spec fn sr_start(rest: ContextRest) -> RState {
    RState { scopes: seq![empty_scope(None)], current: 0, rest: rest }
}


// ---------------------------------------------------------------------------
// What resolution records names objects that exist
// ---------------------------------------------------------------------------

/// Every object id recorded for a name used, a declaration or an item names
/// an object.
pub open spec fn refs_exist(rest: ContextRest) -> bool {
    let n = rest.objects.len();
    &&& forall|k: usize| #[trigger] rest.expr_refs.contains_key(k) ==> rest.expr_refs[k].0 < n
    &&& forall|k: usize| #[trigger] rest.item_refs.contains_key(k) ==> rest.item_refs[k].0 < n
    &&& forall|k: usize| #[trigger] rest.vardec_refs.contains_key(k) ==> rest.vardec_refs[k].0 < n
}

/// The scopes nest (each inside one before it), the current one exists, and
/// every object id that a scope or a recorded reference holds names an object.
pub open spec fn rstate_ok(st: RState) -> bool {
    let n = st.rest.objects.len();
    &&& 0 <= st.current < st.scopes.len()
    &&& forall|i: int|
        0 <= i < st.scopes.len() ==> match (#[trigger] st.scopes[i]).parent {
            Some(p) => 0 <= p < i,
            None => true,
        }
    &&& forall|i: int, m: Seq<char>|
        0 <= i < st.scopes.len() && #[trigger] st.scopes[i].objects.contains_key(m)
            ==> st.scopes[i].objects[m].0 < n
    &&& forall|i: int, m: Seq<char>|
        0 <= i < st.scopes.len() && #[trigger] st.scopes[i].object_forward_decs.contains_key(m)
            ==> st.scopes[i].object_forward_decs[m].0 < n
    &&& refs_exist(st.rest)
}

/// `r` is not a failure for a node id that names no node, nor for a node
/// that contains itself (a cycle in the tree).
pub open spec fn no_tree_fault<T>(r: Result<T, ResolveFailureView>) -> bool {
    !(r matches Err(ResolveFailureView::Fault(f)) && (f == ResolveFault::MalformedTree || f
        == ResolveFault::MissingNode))
}

/// The scopes of `a` are still there in `b`, each in the same place and
/// inside the same scope.
pub open spec fn parents_kept(a: RState, b: RState) -> bool {
    &&& b.scopes.len() >= a.scopes.len()
    &&& forall|i: int| 0 <= i < a.scopes.len() ==> (#[trigger] b.scopes[i]).parent == a.scopes[i].parent
}

proof fn lemma_get_object_exists(st: RState, id: int, name: Seq<char>)
    requires
        rstate_ok(st),
        0 <= id < st.scopes.len(),
    ensures
        sr_get_object(st.scopes, id, name) matches Ok(o) ==> o.0 < st.rest.objects.len(),
    decreases id,
{
    if !st.scopes[id].objects.contains_key(name) && !st.scopes[id].object_forward_decs.contains_key(name) {
        if let Some(p) = st.scopes[id].parent {
            if 0 <= p < id {
                lemma_get_object_exists(st, p, name);
            }
        }
    }
}

proof fn lemma_enter_ok(st: RState)
    requires
        rstate_ok(st),
    ensures
        rstate_ok(sr_enter(st)),
{
    let st2 = sr_enter(st);
    assert forall|i: int| 0 <= i < st2.scopes.len() implies match (#[trigger] st2.scopes[i]).parent {
        Some(p) => 0 <= p < i,
        None => true,
    } by {
        if i < st.scopes.len() {
            assert(st2.scopes[i] == st.scopes[i]);
        }
    }
    assert forall|i: int, m: Seq<char>|
        0 <= i < st2.scopes.len() && #[trigger] st2.scopes[i].objects.contains_key(m) implies st2.scopes[i].objects[m].0
        < st2.rest.objects.len() by {
        if i < st.scopes.len() {
            assert(st2.scopes[i] == st.scopes[i]);
        }
    }
    assert forall|i: int, m: Seq<char>|
        0 <= i < st2.scopes.len() && #[trigger] st2.scopes[i].object_forward_decs.contains_key(m) implies st2.scopes[i].object_forward_decs[m].0
        < st2.rest.objects.len() by {
        if i < st.scopes.len() {
            assert(st2.scopes[i] == st.scopes[i]);
        }
    }
}

proof fn lemma_exit_ok(st: RState)
    requires
        rstate_ok(st),
    ensures
        sr_exit(st) matches Ok(st2) ==> rstate_ok(st2),
{
    assert(match st.scopes[st.current].parent {
        Some(p) => 0 <= p < st.current,
        None => true,
    });
}

proof fn lemma_type_ok(st: RState, t: TypeTree)
    requires
        rstate_ok(st),
    ensures
        sr_type(st, t) matches Ok((_, st2)) ==> rstate_ok(st2) && st2.scopes == st.scopes
            && st2.current == st.current && st2.rest.objects == st.rest.objects
            && st2.rest.expr_refs == st.rest.expr_refs && st2.rest.item_refs == st.rest.item_refs
            && st2.rest.vardec_refs == st.rest.vardec_refs,
        !(sr_type(st, t) matches Err(ResolveFailureView::Fault(_))),
    decreases t,
{
    if let TypeTree::Pointer(b) = t {
        lemma_type_ok(st, *b);
    }
}

/// Interning a type changes the types only.
proof fn lemma_with_types_ok(st: RState, ts: Seq<TypeView>)
    requires
        rstate_ok(st),
    ensures
        rstate_ok(with_rest(st, ContextRest { types: ts, ..st.rest })),
{
}

proof fn lemma_declare_ok(st: RState, name: Seq<char>, ty: Option<TypeId>)
    requires
        rstate_ok(st),
    ensures
        sr_declare_object(st, name, ty) matches Ok((id, st2)) ==> rstate_ok(st2) && id.0
            < st2.rest.objects.len() && st2.current == st.current && parents_kept(st, st2),
{
    if let Ok((id, st2)) = sr_declare_object(st, name, ty) {
        let sc = st.scopes[st.current];
        let n2 = st2.rest.objects.len();
        assert(n2 >= st.rest.objects.len());
        assert forall|i: int| 0 <= i < st2.scopes.len() implies match (#[trigger] st2.scopes[i]).parent {
            Some(p) => 0 <= p < i,
            None => true,
        } by {
            assert(st2.scopes[i].parent == st.scopes[i].parent);
        }
        assert forall|i: int, m: Seq<char>|
            0 <= i < st2.scopes.len() && #[trigger] st2.scopes[i].objects.contains_key(m) implies st2.scopes[i].objects[m].0
            < n2 by {
            if i != st.current {
                assert(st2.scopes[i] == st.scopes[i]);
            } else if m != name {
                assert(st.scopes[i].objects.contains_key(m));
            }
        }
        assert forall|i: int, m: Seq<char>|
            0 <= i < st2.scopes.len() && #[trigger] st2.scopes[i].object_forward_decs.contains_key(m) implies st2.scopes[i].object_forward_decs[m].0
            < n2 by {
            if i != st.current {
                assert(st2.scopes[i] == st.scopes[i]);
            } else {
                assert(st.scopes[i].object_forward_decs.contains_key(m));
            }
        }
        if sc.object_forward_decs.contains_key(name) {
            assert(st.scopes[st.current].object_forward_decs.contains_key(name));
        }
    }
}

proof fn lemma_expr_ok(ast: Ast, st: RState, e: int, fuel: nat, er: spec_fn(int) -> int, sr: spec_fn(int) -> int)
    requires
        rstate_ok(st),
    ensures
        sr_expr(ast, st, e, fuel) matches Ok(st2) ==> rstate_ok(st2) && st2.scopes == st.scopes
            && st2.current == st.current,
        well_ranked(ast, er, sr) && 0 <= e < ast.exprs.len() && er(e) < fuel ==> no_tree_fault(
            sr_expr(ast, st, e, fuel),
        ),
    decreases fuel, 0int, 0int,
{
    if 0 <= e < ast.exprs.len() && fuel > 0 {
        let f1 = (fuel - 1) as nat;
        match ast.exprs[e].0 {
            ExprNode::Symbol { name } => {
                lemma_get_object_exists(st, st.current, name);
            },
            ExprNode::Binop { left, right, .. } => {
                lemma_expr_ok(ast, st, left, f1, er, sr);
                if let Ok(st1) = sr_expr(ast, st, left, f1) {
                    lemma_expr_ok(ast, st1, right, f1, er, sr);
                }
            },
            ExprNode::FnCall { target, args } => {
                lemma_expr_ok(ast, st, target, f1, er, sr);
                if let Ok(st1) = sr_expr(ast, st, target, f1) {
                    lemma_args_ok(ast, st1, args, 0, f1, er, sr);
                }
            },
            _ => {},
        }
    }
}

proof fn lemma_args_ok(
    ast: Ast,
    st: RState,
    args: Seq<int>,
    k: int,
    fuel: nat,
    er: spec_fn(int) -> int,
    sr: spec_fn(int) -> int,
)
    requires
        rstate_ok(st),
    ensures
        sr_args(ast, st, args, k, fuel) matches Ok(st2) ==> rstate_ok(st2) && st2.scopes == st.scopes
            && st2.current == st.current,
        well_ranked(ast, er, sr) && (forall|j: int|
            0 <= j < args.len() ==> 0 <= #[trigger] args[j] < ast.exprs.len() && er(args[j]) < fuel)
            ==> no_tree_fault(sr_args(ast, st, args, k, fuel)),
    decreases fuel, 1int, args.len() - k,
{
    if 0 <= k < args.len() {
        lemma_expr_ok(ast, st, args[k], fuel, er, sr);
        if let Ok(st1) = sr_expr(ast, st, args[k], fuel) {
            lemma_args_ok(ast, st1, args, k + 1, fuel, er, sr);
        }
    }
}

proof fn lemma_vardec_ok(
    ast: Ast,
    st: RState,
    s: int,
    name: Seq<char>,
    ty: Option<TypeTree>,
    val: Option<int>,
    er: spec_fn(int) -> int,
    sr: spec_fn(int) -> int,
)
    requires
        rstate_ok(st),
    ensures
        sr_vardec(ast, st, s, name, ty, val) matches Ok(st2) ==> rstate_ok(st2) && st2.current
            == st.current && parents_kept(st, st2),
        well_ranked(ast, er, sr) && (val matches Some(v) ==> 0 <= v < ast.exprs.len()) ==> no_tree_fault(
            sr_vardec(ast, st, s, name, ty, val),
        ),
{
    let t: Result<(Option<TypeId>, RState), ResolveFailureView> = match ty {
        Some(tt) => match sr_type(st, tt) {
            Err(f) => Err(f),
            Ok((id, st1)) => Ok((Some(id), st1)),
        },
        None => Ok((None, st)),
    };
    if let Some(tt) = ty {
        lemma_type_ok(st, tt);
    }
    if let Ok((t, st1)) = t {
        let v = match val {
            Some(v) => sr_expr(ast, st1, v, ast.exprs.len()),
            None => Ok(st1),
        };
        if let Some(v) = val {
            if well_ranked(ast, er, sr) && 0 <= v < ast.exprs.len() {
                let _ = ast.exprs[v].0;
            }
            lemma_expr_ok(ast, st1, v, ast.exprs.len(), er, sr);
        }
        if let Ok(st2) = v {
            lemma_declare_ok(st2, name, t);
        }
    }
}

proof fn lemma_stmt_ok(ast: Ast, st: RState, s: int, fuel: nat, er: spec_fn(int) -> int, sr: spec_fn(int) -> int)
    requires
        rstate_ok(st),
    ensures
        sr_stmt(ast, st, s, fuel) matches Ok(st2) ==> rstate_ok(st2) && st2.current == st.current
            && parents_kept(st, st2),
        well_ranked(ast, er, sr) && 0 <= s < ast.stmts.len() && sr(s) < fuel ==> no_tree_fault(
            sr_stmt(ast, st, s, fuel),
        ),
    decreases fuel, 0int, 0int,
{
    if 0 <= s < ast.stmts.len() && fuel > 0 {
        let f1 = (fuel - 1) as nat;
        match ast.stmts[s].0 {
            StmtNode::Expr { expr } => {
                if well_ranked(ast, er, sr) && 0 <= expr < ast.exprs.len() {
                    let _ = ast.exprs[expr].0;
                }
                lemma_expr_ok(ast, st, expr, ast.exprs.len(), er, sr);
            },
            StmtNode::VarDec { name, ty, val } => {
                lemma_vardec_ok(ast, st, s, name, ty, val, er, sr);
            },
            StmtNode::If { cond, block, alts, else_block } => {
                if well_ranked(ast, er, sr) && sr(s) < fuel {
                    let ns = ast.stmts.len() as int;
                    let ne = ast.exprs.len() as int;
                    assert(stmt_ranked(ast.stmts[s].0, sr(s), sr, ns, ne));
                    lemma_block_ranked_grow(block, sr(s), f1 as int, sr, ns);
                    lemma_alts_ranked_grow(alts, sr(s), f1 as int, sr, ns, ne);
                    if let Some(b) = else_block {
                        lemma_block_ranked_grow(b, sr(s), f1 as int, sr, ns);
                    }
                }
                lemma_if_ok(ast, st, cond, block, alts, else_block, f1, er, sr);
            },
            _ => {},
        }
    }
}

proof fn lemma_if_ok(
    ast: Ast,
    st: RState,
    cond: int,
    block: Seq<int>,
    alts: Seq<(int, Seq<int>)>,
    else_block: Option<Seq<int>>,
    fuel: nat,
    er: spec_fn(int) -> int,
    sr: spec_fn(int) -> int,
)
    requires
        rstate_ok(st),
    ensures
        sr_if(ast, st, cond, block, alts, else_block, fuel) matches Ok(st2) ==> rstate_ok(st2)
            && st2.current == st.current && parents_kept(st, st2),
        well_ranked(ast, er, sr) && 0 <= cond < ast.exprs.len() && block_ranked(
            block,
            fuel as int,
            sr,
            ast.stmts.len() as int,
        ) && alts_ranked(alts, fuel as int, sr, ast.stmts.len() as int, ast.exprs.len() as int) && (
        else_block matches Some(b) ==> block_ranked(b, fuel as int, sr, ast.stmts.len() as int))
            ==> no_tree_fault(sr_if(ast, st, cond, block, alts, else_block, fuel)),
    decreases fuel, 3int, 0int,
{
    let st1 = sr_enter(st);
    lemma_enter_ok(st);
    if well_ranked(ast, er, sr) && 0 <= cond < ast.exprs.len() {
        let _ = ast.exprs[cond].0;
    }
    lemma_expr_ok(ast, st1, cond, ast.exprs.len(), er, sr);
    if let Ok(st2) = sr_expr(ast, st1, cond, ast.exprs.len()) {
        lemma_block_ok(ast, st2, block, 0, fuel, er, sr);
        if let Ok(st3) = sr_block(ast, st2, block, 0, fuel) {
            lemma_exit_ok(st3);
            if let Ok(st4) = sr_exit(st3) {
                assert(st3.scopes[st3.current].parent == Some(st.current));
                lemma_alts_ok(ast, st4, alts, 0, fuel, er, sr);
                if let Ok(st5) = sr_alts(ast, st4, alts, 0, fuel) {
                    if let Some(b) = else_block {
                        lemma_block_ok(ast, st5, b, 0, fuel, er, sr);
                    }
                }
            }
        }
    }
}

proof fn lemma_alts_ok(
    ast: Ast,
    st: RState,
    alts: Seq<(int, Seq<int>)>,
    k: int,
    fuel: nat,
    er: spec_fn(int) -> int,
    sr: spec_fn(int) -> int,
)
    requires
        rstate_ok(st),
    ensures
        sr_alts(ast, st, alts, k, fuel) matches Ok(st2) ==> rstate_ok(st2) && st2.current == st.current
            && parents_kept(st, st2),
        well_ranked(ast, er, sr) && alts_ranked(alts, fuel as int, sr, ast.stmts.len() as int, ast.exprs.len() as int)
            ==> no_tree_fault(sr_alts(ast, st, alts, k, fuel)),
    decreases fuel, 2int, alts.len() - k,
{
    if 0 <= k < alts.len() {
        let st1 = sr_enter(st);
        lemma_enter_ok(st);
        if well_ranked(ast, er, sr) && alts_ranked(alts, fuel as int, sr, ast.stmts.len() as int, ast.exprs.len() as int) {
            assert(0 <= alts[k].0 < ast.exprs.len() && block_ranked(alts[k].1, fuel as int, sr, ast.stmts.len() as int));
            let _ = ast.exprs[alts[k].0].0;
        }
        lemma_expr_ok(ast, st1, alts[k].0, ast.exprs.len(), er, sr);
        if let Ok(st2) = sr_expr(ast, st1, alts[k].0, ast.exprs.len()) {
            lemma_block_ok(ast, st2, alts[k].1, 0, fuel, er, sr);
            if let Ok(st3) = sr_block(ast, st2, alts[k].1, 0, fuel) {
                lemma_exit_ok(st3);
                if let Ok(st4) = sr_exit(st3) {
                    lemma_alts_ok(ast, st4, alts, k + 1, fuel, er, sr);
                }
            }
        }
    }
}

proof fn lemma_block_ok(
    ast: Ast,
    st: RState,
    ids: Seq<int>,
    k: int,
    fuel: nat,
    er: spec_fn(int) -> int,
    sr: spec_fn(int) -> int,
)
    requires
        rstate_ok(st),
    ensures
        sr_block(ast, st, ids, k, fuel) matches Ok(st2) ==> rstate_ok(st2) && st2.current == st.current
            && parents_kept(st, st2),
        well_ranked(ast, er, sr) && block_ranked(ids, fuel as int, sr, ast.stmts.len() as int) ==> no_tree_fault(
            sr_block(ast, st, ids, k, fuel),
        ),
    decreases fuel, 1int, ids.len() - k,
{
    if 0 <= k < ids.len() {
        lemma_stmt_ok(ast, st, ids[k], fuel, er, sr);
        if let Ok(st1) = sr_stmt(ast, st, ids[k], fuel) {
            lemma_block_ok(ast, st1, ids, k + 1, fuel, er, sr);
        }
    }
}

proof fn lemma_fndec_ok(
    ast: Ast,
    st: RState,
    name: Seq<char>,
    args: Seq<(Seq<char>, TypeTree)>,
    ret: Option<TypeTree>,
    body: Option<Seq<int>>,
    er: spec_fn(int) -> int,
    sr: spec_fn(int) -> int,
)
    requires
        rstate_ok(st),
    ensures
        sr_fndec(ast, st, name, args, ret, body) matches Ok((id, st2)) ==> rstate_ok(st2) && id.0
            < st2.rest.objects.len() && st2.current == st.current && parents_kept(st, st2),
        well_ranked(ast, er, sr) && (body matches Some(b) ==> ids_below(b, ast.stmts.len() as int))
            ==> no_tree_fault(sr_fndec(ast, st, name, args, ret, body)),
{
    let st1 = sr_enter(st);
    lemma_enter_ok(st);
    if args.len() == 0 {
        let r: Result<(Option<TypeId>, RState), ResolveFailureView> = match ret {
            Some(t) => match sr_type(st1, t) {
                Err(f) => Err(f),
                Ok((id, st2)) => Ok((Some(id), st2)),
            },
            None => Ok((None, st1)),
        };
        if let Some(t) = ret {
            lemma_type_ok(st1, t);
        }
        if let Ok((ret_ty, st2)) = r {
            let (i1, ts1) = intern_spec(st2.rest.types, fn_type(ret_ty));
            let st3 = with_rest(st2, ContextRest { types: ts1, ..st2.rest });
            lemma_with_types_ok(st2, ts1);
            lemma_declare_ok(st3, name, Some(TypeId(i1 as usize)));
            if let Ok((_, st4)) = sr_declare_object(st3, name, Some(TypeId(i1 as usize))) {
                if let Some(b) = body {
                    if well_ranked(ast, er, sr) && ids_below(b, ast.stmts.len() as int) {
                        lemma_body_ranked(ast, er, sr, b);
                    }
                    lemma_block_ok(ast, st4, b, 0, ast.stmts.len(), er, sr);
                    if let Ok(st5) = sr_block(ast, st4, b, 0, ast.stmts.len()) {
                        assert(st5.scopes[st5.current].parent == Some(st.current));
                        lemma_exit_ok(st5);
                        if let Ok(st6) = sr_exit(st5) {
                            let (i2, ts2) = intern_spec(st6.rest.types, fn_type(ret_ty));
                            let st7 = with_rest(st6, ContextRest { types: ts2, ..st6.rest });
                            lemma_with_types_ok(st6, ts2);
                            lemma_declare_ok(st7, name, Some(TypeId(i2 as usize)));
                        }
                    }
                }
            }
        }
    }
}

proof fn lemma_item_ok(ast: Ast, st: RState, i: int, ahead: bool, er: spec_fn(int) -> int, sr: spec_fn(int) -> int)
    requires
        rstate_ok(st),
    ensures
        (if ahead {
            sr_item_forward_dec(ast, st, i)
        } else {
            sr_item(ast, st, i)
        }) matches Ok(st2) ==> rstate_ok(st2) && st2.current == st.current && parents_kept(st, st2),
        well_ranked(ast, er, sr) && 0 <= i < ast.items.len() ==> no_tree_fault(
            if ahead {
                sr_item_forward_dec(ast, st, i)
            } else {
                sr_item(ast, st, i)
            },
        ),
{
    if 0 <= i < ast.items.len() {
        if let ItemNode::FnDec { name, args, ret, body } = ast.items[i].0 {
            if ahead {
                let id = ObjectId(st.rest.objects.len() as usize);
                if let Ok(st2) = sr_item_forward_dec(ast, st, i) {
                    let n2 = st2.rest.objects.len();
                    assert forall|j: int, m: Seq<char>|
                        0 <= j < st2.scopes.len() && #[trigger] st2.scopes[j].object_forward_decs.contains_key(m)
                        implies st2.scopes[j].object_forward_decs[m].0 < n2 by {
                        if j != st.current {
                            assert(st2.scopes[j] == st.scopes[j]);
                        } else if m != name {
                            assert(st.scopes[j].object_forward_decs.contains_key(m));
                        }
                    }
                    assert forall|j: int, m: Seq<char>|
                        0 <= j < st2.scopes.len() && #[trigger] st2.scopes[j].objects.contains_key(m) implies st2.scopes[j].objects[m].0
                        < n2 by {
                        if j != st.current {
                            assert(st2.scopes[j] == st.scopes[j]);
                        } else {
                            assert(st.scopes[j].objects.contains_key(m));
                        }
                    }
                    assert forall|j: int| 0 <= j < st2.scopes.len() implies match (#[trigger] st2.scopes[j]).parent {
                        Some(p) => 0 <= p < j,
                        None => true,
                    } by {
                        assert(st2.scopes[j].parent == st.scopes[j].parent);
                    }
                }
            } else {
                lemma_fndec_ok(ast, st, name, args, ret, body, er, sr);
            }
        }
    }
}

proof fn lemma_items_ok(
    ast: Ast,
    st: RState,
    items: Seq<int>,
    k: int,
    ahead: bool,
    er: spec_fn(int) -> int,
    sr: spec_fn(int) -> int,
)
    requires
        rstate_ok(st),
    ensures
        sr_items(ast, st, items, k, ahead) matches Ok(st2) ==> rstate_ok(st2),
        well_ranked(ast, er, sr) && ids_below(items, ast.items.len() as int) ==> no_tree_fault(
            sr_items(ast, st, items, k, ahead),
        ),
    decreases items.len() - k,
{
    if 0 <= k < items.len() {
        lemma_item_ok(ast, st, items[k], ahead, er, sr);
        let r = if ahead {
            sr_item_forward_dec(ast, st, items[k])
        } else {
            sr_item(ast, st, items[k])
        };
        if let Ok(st1) = r {
            lemma_items_ok(ast, st1, items, k + 1, ahead, er, sr);
        }
    }
}

/// Resolving a module of a tree without cycles never meets a node id that
/// names no node, nor a node that contains itself.
pub proof fn law_acyclic_tree_resolves_without_tree_faults(
    ast: Ast,
    rest: ContextRest,
    m: int,
    er: spec_fn(int) -> int,
    sr: spec_fn(int) -> int,
)
    requires
        well_ranked(ast, er, sr),
        0 <= m < ast.mods.len(),
        refs_exist(rest),
    ensures
        no_tree_fault(sr_module(ast, sr_start(rest), m)),
{
    let st = sr_start(rest);
    assert(rstate_ok(st));
    assert(ids_below(ast.mods[m].0, ast.items.len() as int));
    lemma_items_ok(ast, st, ast.mods[m].0, 0, true, er, sr);
    if let Ok(st1) = sr_items(ast, st, ast.mods[m].0, 0, true) {
        lemma_items_ok(ast, st1, ast.mods[m].0, 0, false, er, sr);
    }
}

/// Every object that a successful resolution records, for a name used, a
/// declaration or an item, is an object of the context after it: resolution
/// never points at an object that does not exist.
pub proof fn law_resolution_refs_exist(ast: Ast, rest: ContextRest, m: int)
    requires
        refs_exist(rest),
    ensures
        sr_module(ast, sr_start(rest), m) matches Ok(st) ==> refs_exist(st.rest),
{
    let st = sr_start(rest);
    assert(rstate_ok(st));
    let id = |i: int| i;
    if 0 <= m < ast.mods.len() {
        lemma_items_ok(ast, st, ast.mods[m].0, 0, true, id, id);
        if let Ok(st1) = sr_items(ast, st, ast.mods[m].0, 0, true) {
            lemma_items_ok(ast, st1, ast.mods[m].0, 0, false, id, id);
        }
    }
}

/// `new` holds the types of `old`, at the same ids, and maybe more after them.
pub open spec fn types_grown(new: Seq<TypeView>, old: Seq<TypeView>) -> bool {
    &&& old.len() <= new.len()
    &&& forall|i: int| 0 <= i < old.len() ==> #[trigger] new[i] == old[i]
}

/// What resolution leaves of a context's records `old` in `rest`: the base
/// scope and the expressions' types unchanged, the types interned grown,
/// and objects and references only added (an object or a reference
/// already there may be given again).
pub open spec fn resolve_frame(rest: ContextRest, old: ContextRest) -> bool {
    &&& rest.base_scope == old.base_scope
    &&& rest.expr_ty_refs == old.expr_ty_refs
    &&& types_grown(rest.types, old.types)
    &&& old.objects.len() <= rest.objects.len()
    &&& old.expr_refs.dom().subset_of(rest.expr_refs.dom())
    &&& old.item_refs.dom().subset_of(rest.item_refs.dom())
    &&& old.vardec_refs.dom().subset_of(rest.vardec_refs.dom())
}

/// `r` and the state after, `after`, are what `spec` says: that state, or
/// the same failure.
pub open spec fn resolved(r: Result<(), ResolveFailure>, after: RState, spec: Result<RState, ResolveFailureView>) -> bool {
    match spec {
        Ok(s) => r is Ok && after == s,
        Err(f) => r matches Err(e) && e@ == f,
    }
}

/// Resolves the names of a module: each name used to the object it stands
/// for, in the innermost scope that declares it.
pub struct SymbolResolver {
    ctx: Context,
    scopes: Vec<Scope>,
    global_scope: ScopeId,
    current_scope: ScopeId,
}

impl SymbolResolver {
    pub closed spec fn state(&self) -> RState {
        RState {
            scopes: self.scopes@.map_values(|s: Scope| s@),
            current: self.current_scope@,
            rest: self.ctx.rest(),
        }
    }

    pub closed spec fn ast(&self) -> Ast {
        self.ctx.ast()
    }

    /// The scopes nest (each inside one before it), each holds what it
    /// should, and the current one exists.
    pub closed spec fn inv(&self) -> bool {
        &&& 1 <= self.scopes@.len()
        &&& 0 <= self.current_scope@ < self.scopes@.len()
        &&& self.global_scope@ == 0
        &&& forall|i: int| 0 <= i < self.scopes@.len() ==> #[trigger] self.scopes@[i].wf()
        &&& forall|i: int|
            0 <= i < self.scopes@.len() ==> match (#[trigger] self.scopes@[i])@.parent {
                Some(p) => 0 <= p < i,
                None => true,
            }
        &&& self.ctx.wf()
    }

    proof fn lemma_state_scope(&self, i: int)
        requires
            0 <= i < self.scopes@.len(),
        ensures
            self.state().scopes[i] == self.scopes@[i]@,
            self.state().scopes.len() == self.scopes@.len(),
    {
    }

    /// A resolver over `ctx`, with one global scope, current.
    pub fn new(ctx: Context) -> (r: Self)
        requires
            ctx.wf(),
        ensures
            r.inv(),
            r.state() == sr_start(ctx.rest()),
            r.ast() == ctx.ast(),
    {
        let mut scopes = Vec::new();
        scopes.push(Scope::new(None));
        let sid = ScopeId(scopes.len() - 1);
        let r = Self { ctx: ctx, scopes: scopes, global_scope: sid, current_scope: sid };
        assert(r.state().scopes =~= seq![empty_scope(None)]);
        r
    }

    fn get_scope(&mut self, id: ScopeId) -> (r: Option<&Scope>)
        requires
            old(self).inv(),
        ensures
            *final(self) == *old(self),
            match r {
                Some(s) => id@ < old(self).state().scopes.len() && s@ == old(self).state().scopes[id@] && s.wf(),
                None => id@ >= old(self).state().scopes.len(),
            },
    {
        if id.0 < self.scopes.len() {
            Some(&self.scopes[id.0])
        } else {
            None
        }
    }

    /// Adds an empty scope inside `parent`, which must come before it.
    fn new_scope(&mut self, parent: Option<ScopeId>) -> (r: ScopeId)
        requires
            old(self).inv(),
            parent matches Some(p) ==> p@ < old(self).scopes@.len(),
        ensures
            final(self).inv(),
            resolve_frame(final(self).state().rest, old(self).state().rest),
            final(self).ast() == old(self).ast(),
            r@ == old(self).state().scopes.len(),
            r@ == old(self).scopes@.len(),
            final(self).scopes@.len() == old(self).scopes@.len() + 1,
            final(self).state() == (RState {
                scopes: old(self).state().scopes.push(empty_scope(scope_id_opt(parent))),
                ..old(self).state()
            }),
    {
        self.scopes.push(Scope::new(parent));
        let n = self.scopes.len();
        proof {
            assert(self.state().scopes =~= old(self).state().scopes.push(empty_scope(scope_id_opt(parent))));
        }
        ScopeId(n - 1)
    }

    fn enter_scope(&mut self)
        requires
            old(self).inv(),
        ensures
            final(self).inv(),
            resolve_frame(final(self).state().rest, old(self).state().rest),
            final(self).ast() == old(self).ast(),
            final(self).state() == sr_enter(old(self).state()),
    {
        let s = self.new_scope(Some(self.current_scope));
        self.current_scope = s;
    }

    fn exit_scope(&mut self) -> (r: Result<(), ResolveFailure>)
        requires
            old(self).inv(),
        ensures
            final(self).inv(),
            resolve_frame(final(self).state().rest, old(self).state().rest),
            final(self).ast() == old(self).ast(),
            final(self).scopes@.len() == old(self).scopes@.len(),
            resolved(r, final(self).state(), sr_exit(old(self).state())),
    {
        proof {
            self.lemma_state_scope(self.current_scope@);
        }
        match self.get_scope(self.current_scope).unwrap().parent {
            Some(s) => {
                self.current_scope = s;
                Ok(())
            },
            None => Err(ResolveFailure::Fault(ResolveFault::NoParentScope)),
        }
    }

    /// The object `name` stands for in the current scope or the scopes around it.
    fn scope_get_object(&mut self, name: &String) -> (r: Result<ObjectId, String>)
        requires
            old(self).inv(),
        ensures
            *final(self) == *old(self),
            match sr_get_object(old(self).state().scopes, old(self).state().current, name@) {
                Ok(o) => r == Ok::<ObjectId, String>(o),
                Err(m) => r matches Err(e) && e@ == m,
            },
    {
        let mut id = self.current_scope;
        loop
            invariant
                *self == *old(self),
                self.inv(),
                0 <= id@ < self.scopes@.len(),
                sr_get_object(self.state().scopes, self.state().current, name@) == sr_get_object(self.state().scopes, id@, name@),
            decreases id@,
        {
            proof {
                self.lemma_state_scope(id@);
            }
            match self.get_scope(id) {
                Some(s) => {
                    match s.get_object(name) {
                        Some(t) => return Ok(*t),
                        None => {
                            match s.parent {
                                Some(pid) => id = pid,
                                None => {
                                    let mut m = String::from_str("object ");
                                    push_str(&mut m, name.as_str());
                                    push_str(&mut m, " does not exist.");
                                    return Err(m);
                                },
                            }
                        },
                    }
                },
                None => {
                    proof {
                        assert(false);
                    }
                },
            }
        }
    }

    /// The type `name` stands for in the current scope, the scopes around
    /// it, or the base scope.
    fn scope_get_type(&mut self, name: &String) -> (r: Result<TypeId, String>)
        requires
            old(self).inv(),
        ensures
            *final(self) == *old(self),
            match sr_get_type(old(self).state().scopes, old(self).state().current, name@, old(self).state().rest.base_scope@) {
                Ok(t) => r == Ok::<TypeId, String>(t),
                Err(m) => r matches Err(e) && e@ == m,
            },
    {
        let mut id = self.current_scope;
        loop
            invariant
                *self == *old(self),
                self.inv(),
                0 <= id@ < self.scopes@.len(),
                sr_get_type(self.state().scopes, self.state().current, name@, self.state().rest.base_scope@)
                    == sr_get_type(self.state().scopes, id@, name@, self.state().rest.base_scope@),
            decreases id@,
        {
            proof {
                self.lemma_state_scope(id@);
            }
            match self.get_scope(id) {
                Some(s) => {
                    match s.get_type(name) {
                        Some(t) => return Ok(*t),
                        None => {
                            match s.parent {
                                Some(pid) => id = pid,
                                None => return self.ctx.base_scope_get_type(name),
                            }
                        },
                    }
                },
                None => {
                    proof {
                        assert(false);
                    }
                },
            }
        }
    }

    fn intern_type(&mut self, ty: Type) -> (r: TypeId)
        requires
            old(self).inv(),
        ensures
            final(self).inv(),
            resolve_frame(final(self).state().rest, old(self).state().rest),
            final(self).ast() == old(self).ast(),
            r.0 == intern_spec(old(self).state().rest.types, ty@).0,
            final(self).scopes@.len() == old(self).scopes@.len(),
            final(self).state() == with_rest(
                old(self).state(),
                ContextRest { types: intern_spec(old(self).state().rest.types, ty@).1, ..old(self).state().rest },
            ),
    {
        self.ctx.intern_type(ty)
    }

    fn resolve_type_specifier(&mut self, ty: &parser::TypeSpecifier) -> (r: Result<TypeId, String>)
        requires
            old(self).inv(),
        ensures
            final(self).inv(),
            resolve_frame(final(self).state().rest, old(self).state().rest),
            final(self).ast() == old(self).ast(),
            final(self).scopes@.len() == old(self).scopes@.len(),
            match sr_type(old(self).state(), ty@) {
                Ok((id, st)) => r == Ok::<TypeId, String>(id) && final(self).state() == st,
                Err(ResolveFailureView::Error(m)) => r matches Err(e) && e@ == m,
                Err(ResolveFailureView::Fault(_)) => false,
            },
        decreases ty,
    {
        match ty {
            parser::TypeSpecifier::Base(name) => self.scope_get_type(name),
            parser::TypeSpecifier::Pointer(b) => {
                let base_id = match self.resolve_type_specifier(b) {
                    Ok(t) => t,
                    Err(e) => return Err(e),
                };
                Ok(self.intern_type(Type::Pointer(base_id)))
            },
        }
    }

    fn resolve_type(&mut self, ty: &parser::TypeSpecifier) -> (r: Result<TypeId, String>)
        requires
            old(self).inv(),
        ensures
            final(self).inv(),
            resolve_frame(final(self).state().rest, old(self).state().rest),
            final(self).ast() == old(self).ast(),
            final(self).scopes@.len() == old(self).scopes@.len(),
            match sr_type(old(self).state(), ty@) {
                Ok((id, st)) => r == Ok::<TypeId, String>(id) && final(self).state() == st,
                Err(ResolveFailureView::Error(m)) => r matches Err(e) && e@ == m,
                Err(ResolveFailureView::Fault(_)) => false,
            },
    {
        self.resolve_type_specifier(ty)
    }

    /// Declares the object `name` of type `ty` in the current scope.
    fn declare_object(&mut self, name: String, ty: Option<TypeId>) -> (r: Result<ObjectId, ResolveFailure>)
        requires
            old(self).inv(),
        ensures
            final(self).inv(),
            resolve_frame(final(self).state().rest, old(self).state().rest),
            final(self).ast() == old(self).ast(),
            final(self).scopes@.len() == old(self).scopes@.len(),
            match sr_declare_object(old(self).state(), name@, ty) {
                Ok((id, st)) => r == Ok::<ObjectId, ResolveFailure>(id) && final(self).state() == st,
                Err(f) => r matches Err(e) && e@ == f,
            },
    {
        let o = Object { name: name.clone(), ty: ty };
        let cur = self.current_scope.0;
        proof {
            self.lemma_state_scope(cur as int);
        }
        if let Some(id) = self.scopes[cur].is_object_foreward_dec(&name) {
            if id.0 >= self.ctx.objects_len() {
                return Err(ResolveFailure::Fault(ResolveFault::MissingObject));
            }
            self.ctx.update_object(id, o);
            let ghost before = self.scopes@;
            match self.scopes[cur].declare_object(name, id) {
                Ok(()) => {},
                Err(m) => return Err(ResolveFailure::Error(m)),
            }
            proof {
                assert(self.state().scopes =~= old(self).state().scopes.update(cur as int, self.scopes@[cur as int]@));
            }
            return Ok(id);
        }
        let id = self.ctx.declare_object(o);
        match self.scopes[cur].declare_object(name, id) {
            Ok(()) => {},
            Err(m) => return Err(ResolveFailure::Error(m)),
        }
        proof {
            assert(self.state().scopes =~= old(self).state().scopes.update(cur as int, self.scopes@[cur as int]@));
        }
        Ok(id)
    }

    /// Resolves the names in expression `exprid`, going at most `fuel`
    /// levels down the tree.
    fn resolve_expr(&mut self, exprid: parser::ExprId, fuel: usize) -> (r: Result<(), ResolveFailure>)
        requires
            old(self).inv(),
        ensures
            final(self).inv(),
            resolve_frame(final(self).state().rest, old(self).state().rest),
            final(self).ast() == old(self).ast(),
            resolved(r, final(self).state(), sr_expr(old(self).ast(), old(self).state(), exprid@, fuel as nat)),
        decreases fuel, 0int, 0int,
    {
        let expr = match self.ctx.get_expr(exprid) {
            Ok(e) => e.clone(),
            Err(_) => return Err(ResolveFailure::Fault(ResolveFault::MissingNode)),
        };
        if fuel == 0 {
            return Err(ResolveFailure::Fault(ResolveFault::MalformedTree));
        }
        match expr {
            parser::Expr::Number(_) => Ok(()),
            parser::Expr::Symbol(s) => {
                let id = match self.scope_get_object(&s.symbol) {
                    Ok(id) => id,
                    Err(m) => return Err(ResolveFailure::Error(m)),
                };
                self.ctx.new_expr_ref(exprid, id);
                Ok(())
            },
            parser::Expr::Binop(binop) => {
                match self.resolve_expr(binop.left, fuel - 1) {
                    Ok(()) => {},
                    Err(e) => return Err(e),
                }
                self.resolve_expr(binop.right, fuel - 1)
            },
            parser::Expr::FnCall(fn_call) => self.resolve_fn_call(&fn_call, fuel - 1),
            _ => Err(ResolveFailure::Fault(ResolveFault::UnsupportedExpression)),
        }
    }

    /// Resolves the target of a call, then its arguments, going at most
    /// `fuel` levels down from each.
    #[verifier::loop_isolation(false)]
    fn resolve_fn_call(&mut self, fn_call: &parser::FnCall, fuel: usize) -> (r: Result<(), ResolveFailure>)
        requires
            old(self).inv(),
        ensures
            final(self).inv(),
            resolve_frame(final(self).state().rest, old(self).state().rest),
            final(self).ast() == old(self).ast(),
            resolved(
                r,
                final(self).state(),
                match sr_expr(old(self).ast(), old(self).state(), fn_call.target@, fuel as nat) {
                    Err(f) => Err(f),
                    Ok(st1) => sr_args(old(self).ast(), st1, parser::ids_view(fn_call.args@), 0, fuel as nat),
                },
            ),
        decreases fuel, 1int, 0int,
    {
        match self.resolve_expr(fn_call.target, fuel) {
            Ok(()) => {},
            Err(e) => return Err(e),
        }
        let ghost ast = self.ast();
        let ghost args = parser::ids_view(fn_call.args@);
        let ghost total = sr_args(ast, self.state(), args, 0, fuel as nat);
        let mut k: usize = 0;
        while k < fn_call.args.len()
            invariant
                self.inv(),
                resolve_frame(self.state().rest, old(self).state().rest),
                self.ast() == ast,
                ast == old(self).ast(),
                args == parser::ids_view(fn_call.args@),
                k <= fn_call.args@.len(),
                total == sr_args(ast, self.state(), args, k as int, fuel as nat),
            decreases fn_call.args@.len() - k,
        {
            let a = fn_call.args[k];
            match self.resolve_expr(a, fuel) {
                Ok(()) => {},
                Err(e) => return Err(e),
            }
            k += 1;
        }
        Ok(())
    }

    /// Resolves a declaration statement `s`: its type, its value, then the
    /// name it declares, recording the object declared.
    fn resolve_vardec(&mut self, vardec: &parser::VarDec, s: parser::StmtId) -> (r: Result<
        (),
        ResolveFailure,
    >)
        requires
            old(self).inv(),
        ensures
            final(self).inv(),
            resolve_frame(final(self).state().rest, old(self).state().rest),
            final(self).ast() == old(self).ast(),
            resolved(
                r,
                final(self).state(),
                sr_vardec(
                    old(self).ast(),
                    old(self).state(),
                    s@,
                    vardec.s@,
                    parser::opt_type_view(vardec.ty),
                    parser::opt_id_view(vardec.val),
                ),
            ),
    {
        let t = match &vardec.ty {
            Some(ty) => match self.resolve_type(ty) {
                Ok(id) => Some(id),
                Err(m) => return Err(ResolveFailure::Error(m)),
            },
            None => None,
        };
        if let Some(v) = vardec.val {
            let fuel = self.ctx.expr_count();
            match self.resolve_expr(v, fuel) {
                Ok(()) => {},
                Err(e) => return Err(e),
            }
        }
        let id = match self.declare_object(vardec.s.clone(), t) {
            Ok(id) => id,
            Err(e) => return Err(e),
        };
        self.ctx.new_vardec_ref(s, id);
        Ok(())
    }

    /// Resolves the statements of `block`, going at most `fuel` levels
    /// into nested blocks.
    #[verifier::loop_isolation(false)]
    fn resolve_block(&mut self, block: &parser::Block, fuel: usize) -> (r: Result<(), ResolveFailure>)
        requires
            old(self).inv(),
        ensures
            final(self).inv(),
            resolve_frame(final(self).state().rest, old(self).state().rest),
            final(self).ast() == old(self).ast(),
            resolved(r, final(self).state(), sr_block(old(self).ast(), old(self).state(), block@, 0, fuel as nat)),
        decreases fuel, 1int, 0int,
    {
        let ghost ast = self.ast();
        let ghost total = sr_block(ast, self.state(), block@, 0, fuel as nat);
        let mut k: usize = 0;
        while k < block.stmts.len()
            invariant
                self.inv(),
                resolve_frame(self.state().rest, old(self).state().rest),
                self.ast() == ast,
                k <= block.stmts@.len(),
                total == sr_block(ast, self.state(), block@, k as int, fuel as nat),
            decreases block.stmts@.len() - k,
        {
            let sid = block.stmts[k];
            match self.resolve_stmt(sid, fuel) {
                Ok(()) => {},
                Err(e) => return Err(e),
            }
            k += 1;
        }
        Ok(())
    }

    /// Resolves an `if` statement `s`: the condition and block in a scope of
    /// their own, each `else if` likewise, then the `else` block.
    #[verifier::loop_isolation(false)]
    fn resolve_if_stmt(&mut self, if_stmt: &parser::IfStmt, fuel: usize) -> (r: Result<
        (),
        ResolveFailure,
    >)
        requires
            old(self).inv(),
        ensures
            final(self).inv(),
            resolve_frame(final(self).state().rest, old(self).state().rest),
            final(self).ast() == old(self).ast(),
            resolved(
                r,
                final(self).state(),
                sr_if(
                    old(self).ast(),
                    old(self).state(),
                    if_stmt.cond@,
                    if_stmt.block@,
                    parser::alts_view(if_stmt.alt@),
                    parser::opt_block_view(if_stmt.else_block),
                    fuel as nat,
                ),
            ),
        decreases fuel, 3int, 0int,
    {
        let ghost ast = self.ast();
        let expr_fuel = self.ctx.expr_count();
        self.enter_scope();
        match self.resolve_expr(if_stmt.cond, expr_fuel) {
            Ok(()) => {},
            Err(e) => return Err(e),
        }
        match self.resolve_block(&if_stmt.block, fuel) {
            Ok(()) => {},
            Err(e) => return Err(e),
        }
        match self.exit_scope() {
            Ok(()) => {},
            Err(e) => return Err(e),
        }
        let ghost alts = parser::alts_view(if_stmt.alt@);
        let ghost total = sr_alts(ast, self.state(), alts, 0, fuel as nat);
        let mut k: usize = 0;
        while k < if_stmt.alt.len()
            invariant
                self.inv(),
                resolve_frame(self.state().rest, old(self).state().rest),
                self.ast() == ast,
                k <= if_stmt.alt@.len(),
                total == sr_alts(ast, self.state(), alts, k as int, fuel as nat),
            decreases if_stmt.alt@.len() - k,
        {
            let alt = &if_stmt.alt[k];
            self.enter_scope();
            match self.resolve_expr(alt.cond, expr_fuel) {
                Ok(()) => {},
                Err(e) => return Err(e),
            }
            match self.resolve_block(&alt.block, fuel) {
                Ok(()) => {},
                Err(e) => return Err(e),
            }
            match self.exit_scope() {
                Ok(()) => {},
                Err(e) => return Err(e),
            }
            k += 1;
        }
        match &if_stmt.else_block {
            Some(b) => self.resolve_block(b, fuel),
            None => Ok(()),
        }
    }

    /// Assignments are not resolved yet: always the fault `UnsupportedStatement`.
    fn resolve_assignment(&mut self, a: &parser::Assignment) -> (r: Result<(), ResolveFailure>)
        ensures
            *final(self) == *old(self),
            r matches Err(e) && e@ == ResolveFailureView::Fault(ResolveFault::UnsupportedStatement),
    {
        Err(ResolveFailure::Fault(ResolveFault::UnsupportedStatement))
    }

    /// Resolves statement `stmtid`, going at most `fuel` levels into
    /// nested blocks.
    fn resolve_stmt(&mut self, stmtid: parser::StmtId, fuel: usize) -> (r: Result<(), ResolveFailure>)
        requires
            old(self).inv(),
        ensures
            final(self).inv(),
            resolve_frame(final(self).state().rest, old(self).state().rest),
            final(self).ast() == old(self).ast(),
            resolved(r, final(self).state(), sr_stmt(old(self).ast(), old(self).state(), stmtid@, fuel as nat)),
        decreases fuel, 0int, 0int,
    {
        let stmt = match self.ctx.get_stmt(stmtid) {
            Ok(s) => s.clone(),
            Err(_) => return Err(ResolveFailure::Fault(ResolveFault::MissingNode)),
        };
        if fuel == 0 {
            return Err(ResolveFailure::Fault(ResolveFault::MalformedTree));
        }
        match stmt {
            parser::Stmt::Expr(exprid) => {
                let expr_fuel = self.ctx.expr_count();
                self.resolve_expr(exprid, expr_fuel)
            },
            parser::Stmt::VarDec(vardec) => self.resolve_vardec(&vardec, stmtid),
            parser::Stmt::IfStmt(if_stmt) => self.resolve_if_stmt(&if_stmt, fuel - 1),
            parser::Stmt::Assignment(a) => self.resolve_assignment(&a),
            _ => Err(ResolveFailure::Fault(ResolveFault::UnsupportedStatement)),
        }
    }

    /// Resolves the signature of a function without arguments: in a scope
    /// of its own, its return type, and its name (for recursion). Gives the
    /// return type.
    fn resolve_fn_signature(&mut self, name: &String, ret: &Option<parser::TypeSpecifier>) -> (r: Result<
        Option<TypeId>,
        ResolveFailure,
    >)
        requires
            old(self).inv(),
        ensures
            final(self).inv(),
            resolve_frame(final(self).state().rest, old(self).state().rest),
            final(self).ast() == old(self).ast(),
            match sr_fn_signature(old(self).state(), name@, parser::opt_type_view(*ret)) {
                Ok((t, st)) => r == Ok::<Option<TypeId>, ResolveFailure>(t) && final(self).state() == st,
                Err(f) => r matches Err(e) && e@ == f,
            },
    {
        self.enter_scope();
        let ret_ty = match ret {
            Some(t) => match self.resolve_type(t) {
                Ok(id) => Some(id),
                Err(m) => return Err(ResolveFailure::Error(m)),
            },
            None => None,
        };
        let no_args: Vec<FnArg> = Vec::new();
        assert(no_args@.map_values(|a: FnArg| a@) =~= Seq::<(Seq<char>, TypeId)>::empty());
        let fn_ty = Type::Function(Function { args: no_args, ret_ty: ret_ty });
        let interned = self.intern_type(fn_ty);
        match self.declare_object(name.clone(), Some(interned)) {
            Ok(_) => Ok(ret_ty),
            Err(e) => Err(e),
        }
    }

    /// Resolves a function declaration: its signature, then its body; then
    /// its name in the current scope. Gives the object declared there. The
    /// function has no arguments and has a body: a declaration without
    /// either is a fault, which the caller answers without coming here.
    fn resolve_fndec(&mut self, fn_dec: &parser::FnDec) -> (r: Result<ObjectId, ResolveFailure>)
        requires
            old(self).inv(),
            fn_dec.args.len() == 0,
            fn_dec.body is Some,
        ensures
            final(self).inv(),
            resolve_frame(final(self).state().rest, old(self).state().rest),
            final(self).ast() == old(self).ast(),
            match sr_fndec(
                old(self).ast(),
                old(self).state(),
                fn_dec.name@,
                parser::args_view(fn_dec.args@),
                parser::opt_type_view(fn_dec.ret_ty),
                parser::opt_block_view(fn_dec.body),
            ) {
                Ok((id, st)) => r == Ok::<ObjectId, ResolveFailure>(id) && final(self).state() == st,
                Err(f) => r matches Err(e) && e@ == f,
            },
    {
        let ret_ty = match self.resolve_fn_signature(&fn_dec.name, &fn_dec.ret_ty) {
            Ok(t) => t,
            Err(e) => return Err(e),
        };
        match &fn_dec.body {
            Some(b) => match self.resolve_block(b, self.ctx.stmt_count()) {
                Ok(()) => {},
                Err(e) => return Err(e),
            },
            None => return Err(ResolveFailure::Fault(ResolveFault::MissingBody)),
        }
        match self.exit_scope() {
            Ok(()) => {},
            Err(e) => return Err(e),
        }
        let no_args: Vec<FnArg> = Vec::new();
        assert(no_args@.map_values(|a: FnArg| a@) =~= Seq::<(Seq<char>, TypeId)>::empty());
        let fn_ty = Type::Function(Function { args: no_args, ret_ty: ret_ty });
        let interned = self.intern_type(fn_ty);
        self.declare_object(fn_dec.name.clone(), Some(interned))
    }

    /// Resolves item `itemid`, recording the object it declares.
    fn resolve_item(&mut self, itemid: parser::ItemId) -> (r: Result<(), ResolveFailure>)
        requires
            old(self).inv(),
        ensures
            final(self).inv(),
            resolve_frame(final(self).state().rest, old(self).state().rest),
            final(self).ast() == old(self).ast(),
            resolved(r, final(self).state(), sr_item(old(self).ast(), old(self).state(), itemid@)),
    {
        let item = match self.ctx.get_item(itemid) {
            Ok(i) => i.clone(),
            Err(_) => return Err(ResolveFailure::Fault(ResolveFault::MissingNode)),
        };
        match item {
            parser::Item::FnDec(fn_dec) => {
                if fn_dec.args.len() > 0 {
                    return Err(ResolveFailure::Fault(ResolveFault::FunctionArguments));
                }
                if fn_dec.body.is_none() {
                    return match self.resolve_fn_signature(&fn_dec.name, &fn_dec.ret_ty) {
                        Ok(_) => Err(ResolveFailure::Fault(ResolveFault::MissingBody)),
                        Err(e) => Err(e),
                    };
                }
                let id = match self.resolve_fndec(&fn_dec) {
                    Ok(id) => id,
                    Err(e) => return Err(e),
                };
                self.ctx.new_item_ref(itemid, id);
                Ok(())
            },
            _ => Err(ResolveFailure::Fault(ResolveFault::UnsupportedItem)),
        }
    }

    /// Declares the name of item `itemid` ahead, as a new object without a type.
    fn resolve_item_forward_dec(&mut self, itemid: parser::ItemId) -> (r: Result<(), ResolveFailure>)
        requires
            old(self).inv(),
        ensures
            final(self).inv(),
            resolve_frame(final(self).state().rest, old(self).state().rest),
            final(self).ast() == old(self).ast(),
            resolved(r, final(self).state(), sr_item_forward_dec(old(self).ast(), old(self).state(), itemid@)),
    {
        let item = match self.ctx.get_item(itemid) {
            Ok(i) => i.clone(),
            Err(_) => return Err(ResolveFailure::Fault(ResolveFault::MissingNode)),
        };
        match item {
            parser::Item::FnDec(fn_dec) => {
                let o = Object { name: fn_dec.name.clone(), ty: None };
                let id = self.ctx.declare_object(o);
                let cur = self.current_scope.0;
                proof {
                    self.lemma_state_scope(cur as int);
                }
                match self.scopes[cur].declare_object_forward_dec(fn_dec.name, id) {
                    Ok(()) => {},
                    Err(m) => return Err(ResolveFailure::Error(m)),
                }
                proof {
                    assert(self.state().scopes =~= old(self).state().scopes.update(
                        cur as int,
                        self.scopes@[cur as int]@,
                    ));
                }
                Ok(())
            },
            _ => Err(ResolveFailure::Fault(ResolveFault::UnsupportedItem)),
        }
    }

    /// Declares ahead the names of the items of module `modid`.
    #[verifier::loop_isolation(false)]
    fn resolve_mod_forward_decs(&mut self, modid: parser::ModId) -> (r: Result<(), ResolveFailure>)
        requires
            old(self).inv(),
        ensures
            final(self).inv(),
            resolve_frame(final(self).state().rest, old(self).state().rest),
            final(self).ast() == old(self).ast(),
            resolved(
                r,
                final(self).state(),
                if 0 <= modid@ < old(self).ast().mods.len() {
                    sr_items(old(self).ast(), old(self).state(), old(self).ast().mods[modid@].0, 0, true)
                } else {
                    rfault(ResolveFault::MissingNode)
                },
            ),
    {
        let module = match self.ctx.get_module(modid) {
            Ok(m) => m.clone(),
            Err(_) => return Err(ResolveFailure::Fault(ResolveFault::MissingNode)),
        };
        let items = module.items;
        let ghost ast = self.ast();
        let ghost ids = parser::item_ids_view(items@);
        let ghost total = sr_items(ast, self.state(), ids, 0, true);
        let mut k: usize = 0;
        while k < items.len()
            invariant
                self.inv(),
                resolve_frame(self.state().rest, old(self).state().rest),
                self.ast() == ast,
                k <= items@.len(),
                total == sr_items(ast, self.state(), ids, k as int, true),
            decreases items@.len() - k,
        {
            match self.resolve_item_forward_dec(items[k]) {
                Ok(()) => {},
                Err(e) => return Err(e),
            }
            k += 1;
        }
        Ok(())
    }

    /// Resolves the items of module `modid`.
    #[verifier::loop_isolation(false)]
    fn resolve_mod_decs(&mut self, modid: parser::ModId) -> (r: Result<(), ResolveFailure>)
        requires
            old(self).inv(),
        ensures
            final(self).inv(),
            resolve_frame(final(self).state().rest, old(self).state().rest),
            final(self).ast() == old(self).ast(),
            resolved(
                r,
                final(self).state(),
                if 0 <= modid@ < old(self).ast().mods.len() {
                    sr_items(old(self).ast(), old(self).state(), old(self).ast().mods[modid@].0, 0, false)
                } else {
                    rfault(ResolveFault::MissingNode)
                },
            ),
    {
        let module = match self.ctx.get_module(modid) {
            Ok(m) => m.clone(),
            Err(_) => return Err(ResolveFailure::Fault(ResolveFault::MissingNode)),
        };
        let items = module.items;
        let ghost ast = self.ast();
        let ghost ids = parser::item_ids_view(items@);
        let ghost total = sr_items(ast, self.state(), ids, 0, false);
        let mut k: usize = 0;
        while k < items.len()
            invariant
                self.inv(),
                resolve_frame(self.state().rest, old(self).state().rest),
                self.ast() == ast,
                k <= items@.len(),
                total == sr_items(ast, self.state(), ids, k as int, false),
            decreases items@.len() - k,
        {
            match self.resolve_item(items[k]) {
                Ok(()) => {},
                Err(e) => return Err(e),
            }
            k += 1;
        }
        Ok(())
    }

    /// Resolves module `modid`: all its items declared ahead, then each resolved.
    fn resolve_module(&mut self, modid: parser::ModId) -> (r: Result<(), ResolveFailure>)
        requires
            old(self).inv(),
        ensures
            final(self).inv(),
            resolve_frame(final(self).state().rest, old(self).state().rest),
            final(self).ast() == old(self).ast(),
            resolved(r, final(self).state(), sr_module(old(self).ast(), old(self).state(), modid@)),
    {
        match self.resolve_mod_forward_decs(modid) {
            Ok(()) => {},
            Err(e) => return Err(e),
        }
        self.resolve_mod_decs(modid)
    }

    /// The context, with what resolution recorded.
    pub fn into_context(self) -> (c: Context)
        ensures
            c.ast() == self.ast(),
            c.rest() == self.state().rest,
            self.inv() ==> c.wf(),
    {
        self.ctx
    }

    /// Resolves the names of module `m` of `ctx`, recording in `ctx` the
    /// object that each name, declaration and item refers to. Fails with an
    /// error (a name used but not declared, declared twice, a type not
    /// known) or with a fault on the inputs it does not handle.
    pub fn try_resolve(ctx: &mut Context, m: parser::ModId) -> (r: Result<(), ResolveFailure>)
        requires
            old(ctx).wf(),
        ensures
            final(ctx).wf(),
            final(ctx).ast() == old(ctx).ast(),
            resolve_frame(final(ctx).rest(), old(ctx).rest()),
            match sr_module(old(ctx).ast(), sr_start(old(ctx).rest()), m@) {
                Ok(st) => r is Ok && final(ctx).rest() == st.rest,
                Err(f) => r matches Err(e) && e@ == f,
            },
    {
        let mut taken = Context::new();
        std::mem::swap(ctx, &mut taken);
        let mut sr = SymbolResolver::new(taken);
        let r = sr.resolve_module(m);
        *ctx = sr.into_context();
        r
    }

    /// Resolves the names of module `m` of `ctx`, on a module that resolution
    /// handles; the error is the message of what was wrong.
    pub fn resolve(ctx: &mut Context, m: parser::ModId) -> (r: Result<(), String>)
        requires
            old(ctx).wf(),
            !(sr_module(old(ctx).ast(), sr_start(old(ctx).rest()), m@) matches Err(
                ResolveFailureView::Fault(_),
            )),
        ensures
            final(ctx).wf(),
            final(ctx).ast() == old(ctx).ast(),
            resolve_frame(final(ctx).rest(), old(ctx).rest()),
            match sr_module(old(ctx).ast(), sr_start(old(ctx).rest()), m@) {
                Ok(st) => r is Ok && final(ctx).rest() == st.rest,
                Err(f) => r matches Err(e) && f == ResolveFailureView::Error(e@),
            },
    {
        match Self::try_resolve(ctx, m) {
            Ok(()) => Ok(()),
            Err(ResolveFailure::Error(e)) => Err(e),
            Err(ResolveFailure::Fault(_)) => {
                proof {
                    assert(false);
                }
                Err(String::new())
            },
        }
    }
}

} // verus!
