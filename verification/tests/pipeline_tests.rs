use lib::lexer::{Lexer, Token};
use lib::parser::{self, Expr, Item, ParseFailure, ParseFault, ParserErr, Parser, Stmt};
use lib::resolver::{Context, ModuleError};
use lib::symbols::{Function, Object, ResolveFailure, ResolveFault, SymbolResolver, Type};
use lib::type_checker::{TypeCheckFailure, TypeCheckFault, TypeChecker};

fn parsed(code: &str) -> (Context, parser::ModId) {
    let mut ctx = Context::new();
    let l = match Lexer::from_code(&String::from(code)) {
        Ok(l) => l,
        Err(_) => panic!("lexing failed"),
    };
    let m = match Parser::try_parse(&mut ctx, l) {
        Ok(m) => m,
        Err(_) => panic!("parsing failed"),
    };
    (ctx, m)
}

fn parse_failure(code: &str) -> ParseFailure {
    let mut ctx = Context::new();
    let l = match Lexer::from_code(&String::from(code)) {
        Ok(l) => l,
        Err(_) => panic!("lexing failed"),
    };
    match Parser::try_parse(&mut ctx, l) {
        Ok(_) => panic!("expected a parse failure"),
        Err(e) => e,
    }
}

fn resolve_failure(code: &str) -> ResolveFailure {
    let (mut ctx, m) = parsed(code);
    match SymbolResolver::try_resolve(&mut ctx, m) {
        Ok(()) => panic!("expected a resolution failure"),
        Err(e) => e,
    }
}

fn type_failure(code: &str) -> TypeCheckFailure {
    let (mut ctx, m) = parsed(code);
    match SymbolResolver::try_resolve(&mut ctx, m) {
        Ok(()) => {},
        Err(_) => panic!("resolution failed"),
    }
    match TypeChecker::try_type_check(&mut ctx, m) {
        Ok(()) => panic!("expected a type error"),
        Err(e) => e,
    }
}

fn type_error(code: &str) -> String {
    match type_failure(code) {
        TypeCheckFailure::Error(m) => m,
        TypeCheckFailure::Fault(_) => panic!("expected an error, got a fault"),
    }
}

fn described(ctx: &mut Context, id: lib::symbols::TypeId) -> String {
    ctx.get_type(id).unwrap().describe()
}

const PROGRAM: &str = "fn main(): i32 {\n  a := 1;\n  b: i32 = a + 2;\n  if a < b { c := 3; } else if b { d := 4; } else { e := 5; }\n  f := b;\n}";

#[test]
fn parses_a_program_into_the_arenas() {
    let (ctx, m) = parsed(PROGRAM);
    assert_eq!(m.id(), 0);
    let module = ctx.get_module(m).unwrap();
    assert_eq!(module.items.len(), 1);
    let item = ctx.get_item(module.items[0]).unwrap();
    let body = match item {
        Item::FnDec(f) => {
            assert_eq!(f.name, "main");
            assert_eq!(f.args.len(), 0);
            assert_eq!(f.ret_ty.as_ref().unwrap().name(), "i32");
            f.body.as_ref().unwrap().stmts.clone()
        },
        Item::StructDec(_) => panic!("expected a function"),
    };
    assert_eq!(body.len(), 4);
    match ctx.get_stmt(body[1]).unwrap() {
        Stmt::VarDec(v) => {
            assert_eq!(v.s, "b");
            assert_eq!(v.ty.as_ref().unwrap().name(), "i32");
            let e = v.val.unwrap();
            match ctx.get_expr(e).unwrap() {
                Expr::Binop(b) => {
                    assert!(b.left.id() < e.id());
                    assert!(b.right.id() < e.id());
                    assert!(ctx.get_expr(b.left).unwrap().is_lvalue());
                    assert!(!ctx.get_expr(b.right).unwrap().is_lvalue());
                },
                _ => panic!("expected a binary operation"),
            }
        },
        _ => panic!("expected a declaration"),
    }
    match ctx.get_stmt(body[2]).unwrap() {
        Stmt::IfStmt(s) => {
            assert_eq!(s.alt.len(), 1);
            assert!(s.else_block.is_some());
            for st in s.block.stmts.iter() {
                assert!(st.id() < body[2].id());
            }
        },
        _ => panic!("expected an if"),
    }
    assert!(ctx.get_stmt(lib::parser::StmtId::new(1000)).is_err());
}

#[test]
fn missing_nodes_have_messages() {
    let ctx = Context::new();
    match ctx.get_expr(lib::parser::ExprId::new(7)) {
        Err(m) => assert_eq!(m, "expr ExprId(7) doesn't exist"),
        Ok(_) => panic!(),
    }
    match ctx.get_module(lib::parser::ModId::new(0)) {
        Err(m) => assert_eq!(m, "module ModId(0) doesn't exist"),
        Ok(_) => panic!(),
    }
    match ctx.get_item(lib::parser::ItemId::new(12)) {
        Err(m) => assert_eq!(m, "item ItemId(12) doesn't exist"),
        Ok(_) => panic!(),
    }
    match ctx.get_stmt(lib::parser::StmtId::new(3)) {
        Err(m) => assert_eq!(m, "stmt StmtId(3) doesn't exist"),
        Ok(_) => panic!(),
    }
}

#[test]
fn parse_error_at_top_level() {
    match parse_failure("x") {
        ParseFailure::Error(ParserErr::Invalid(m)) => assert_eq!(m, "Invalid token ident \"x\" at l1c1"),
        _ => panic!("expected an invalid-token error"),
    }
    match parse_failure("if") {
        ParseFailure::Error(ParserErr::Invalid(m)) => assert_eq!(m, "invalid kw"),
        _ => panic!("expected an invalid-keyword error"),
    }
}

#[test]
fn parse_errors_inside_a_function_are_faults() {
    match parse_failure("fn main() { a := ; }") {
        ParseFailure::Fault(ParseFault::Unwrapped(ParserErr::Invalid(m))) => {
            assert_eq!(m, "Invalid primary token  symbol \";\" at l1c18")
        },
        _ => panic!("expected a wrapped invalid-primary error"),
    }
    match parse_failure("fn main( { }") {
        ParseFailure::Fault(ParseFault::Unwrapped(ParserErr::Expected(what, t))) => {
            assert_eq!(what, "ident");
            assert_eq!(t.describe(), "symbol \"{\" at l1c10");
        },
        _ => panic!("expected a wrapped expected-ident error"),
    }
    match parse_failure("fn main()") {
        ParseFailure::Fault(ParseFault::NeedBody) => {},
        _ => panic!("expected the missing-body fault"),
    }
    match parse_failure("fn main() { a : i32; }") {
        ParseFailure::Fault(ParseFault::DeclarationWithoutValue) => {},
        _ => panic!("expected the declaration-without-value fault"),
    }
    match parse_failure("fn main(): + { }") {
        ParseFailure::Fault(ParseFault::InvalidSymbolInType) => {},
        _ => panic!("expected the invalid-symbol-in-type fault"),
    }
    match parse_failure("fn main(): 3 { }") {
        ParseFailure::Fault(ParseFault::InvalidTypeStart) => {},
        _ => panic!("expected the invalid-type-start fault"),
    }
    match parse_failure("fn main() { a + ; }") {
        ParseFailure::Fault(ParseFault::Unwrapped(ParserErr::Invalid(m))) => {
            assert_eq!(m, "Invalid primary token  symbol \";\" at l1c17")
        },
        _ => panic!("expected a wrapped invalid-primary error"),
    }
    match parse_failure("fn main() { a := (1; }") {
        ParseFailure::Fault(ParseFault::UnclosedParen(Token::Symbol(s, _))) => assert_eq!(s, ";"),
        _ => panic!("expected the unclosed-parenthesis fault"),
    }
}

#[test]
fn parse_struct_declaration() {
    let (ctx, m) = parsed("struct P { x: i32, y: *f32 }");
    let module = ctx.get_module(m).unwrap();
    match ctx.get_item(module.items[0]).unwrap() {
        Item::StructDec(s) => {
            assert_eq!(s.name, "P");
            assert_eq!(s.fields.len(), 2);
            assert_eq!(s.fields[1].ty.name(), "*f32");
        },
        _ => panic!("expected a struct"),
    }
}

#[test]
fn resolves_names_to_their_declarations() {
    let (mut ctx, m) = parsed("fn main(): i32 { a := 1; b := a; c := a; }");
    assert!(SymbolResolver::resolve(&mut ctx, m).is_ok());
    let module = ctx.get_module(m).unwrap();
    let item = module.items[0];
    let body = match ctx.get_item(item).unwrap() {
        Item::FnDec(f) => f.body.as_ref().unwrap().stmts.clone(),
        _ => panic!(),
    };
    let a_obj = ctx.get_vardec_ref(body[0]).unwrap();
    let use_of_a = match ctx.get_stmt(body[1]).unwrap() {
        Stmt::VarDec(v) => v.val.unwrap(),
        _ => panic!(),
    };
    assert_eq!(ctx.get_expr_ref(use_of_a), Some(a_obj));
    let ret_of_a = match ctx.get_stmt(body[2]).unwrap() {
        Stmt::VarDec(v) => v.val.unwrap(),
        _ => panic!(),
    };
    assert_eq!(ctx.get_expr_ref(ret_of_a), Some(a_obj));
    let main_obj = ctx.get_item_ref(item).unwrap();
    let main = ctx.get_object(main_obj).unwrap().clone();
    assert_eq!(main.name, "main");
    let ty = main.ty.unwrap();
    assert_eq!(described(&mut ctx, ty), "Function(Function { args: [], ret_ty: Some(TypeId(0)) })");
}

#[test]
fn inner_declarations_shadow_outer_ones() {
    let (mut ctx, m) = parsed("fn main(): i32 { a := 1; if a { a := 2; b := a; } c := a; }");
    assert!(SymbolResolver::resolve(&mut ctx, m).is_ok());
    let module = ctx.get_module(m).unwrap();
    let body = match ctx.get_item(module.items[0]).unwrap() {
        Item::FnDec(f) => f.body.as_ref().unwrap().stmts.clone(),
        _ => panic!(),
    };
    let outer = ctx.get_vardec_ref(body[0]).unwrap();
    let (inner_dec, inner_use) = match ctx.get_stmt(body[1]).unwrap() {
        Stmt::IfStmt(s) => (s.block.stmts[0], s.block.stmts[1]),
        _ => panic!(),
    };
    let inner = ctx.get_vardec_ref(inner_dec).unwrap();
    assert!(inner != outer);
    let use_expr = match ctx.get_stmt(inner_use).unwrap() {
        Stmt::VarDec(v) => v.val.unwrap(),
        _ => panic!(),
    };
    assert_eq!(ctx.get_expr_ref(use_expr), Some(inner));
    let ret = match ctx.get_stmt(body[2]).unwrap() {
        Stmt::VarDec(v) => v.val.unwrap(),
        _ => panic!(),
    };
    assert_eq!(ctx.get_expr_ref(ret), Some(outer));
}

#[test]
fn functions_may_be_called_before_their_declaration() {
    let (mut ctx, m) = parsed("fn main(): i32 { x := g(); } fn g(): i32 { y := 1; }");
    assert!(SymbolResolver::resolve(&mut ctx, m).is_ok());
    assert!(TypeChecker::type_check(&mut ctx, m).is_ok());
}

#[test]
fn resolution_errors() {
    match resolve_failure("fn main(): i32 { b := x; }") {
        ResolveFailure::Error(m) => assert_eq!(m, "object x does not exist."),
        _ => panic!("expected an error"),
    }
    match resolve_failure("fn main(): i32 { a := 1; a := 2; }") {
        ResolveFailure::Error(m) => assert_eq!(m, "Object a already exists."),
        _ => panic!("expected an error"),
    }
    match resolve_failure("fn main(): bool { a := 1; }") {
        ResolveFailure::Error(m) => assert_eq!(m, "Type doesn't exist"),
        _ => panic!("expected an error"),
    }
    match resolve_failure("fn f(): i32 { a := 1; } fn f(): i32 { b := 2; }") {
        ResolveFailure::Error(m) => {
            assert_eq!(m, "object forward_dec f already exists as an object forward dec.")
        },
        _ => panic!("expected an error"),
    }
    let (mut ctx, m) = parsed("fn main(): i32 { b := x; }");
    match SymbolResolver::resolve(&mut ctx, m) {
        Err(e) => assert_eq!(e, "object x does not exist."),
        Ok(()) => panic!(),
    }
}

#[test]
fn resolution_faults() {
    match resolve_failure("fn main(): i32 { a := 1; a = 2; }") {
        ResolveFailure::Fault(ResolveFault::UnsupportedStatement) => {},
        _ => panic!("expected the unsupported-statement fault"),
    }
    match resolve_failure("fn main(): i32 { return 1; }") {
        ResolveFailure::Fault(ResolveFault::UnsupportedStatement) => {},
        _ => panic!("expected the unsupported-statement fault"),
    }
    match resolve_failure("struct P { x: i32 }") {
        ResolveFailure::Fault(ResolveFault::UnsupportedItem) => {},
        _ => panic!("expected the unsupported-item fault"),
    }
    match resolve_failure("fn f(x: i32): i32 { a := x; }") {
        ResolveFailure::Fault(ResolveFault::FunctionArguments) => {},
        _ => panic!("expected the function-arguments fault"),
    }
    match resolve_failure("fn main(): i32 { a := P { x = 1 }; }") {
        ResolveFailure::Fault(ResolveFault::UnsupportedExpression) => {},
        _ => panic!("expected the unsupported-expression fault"),
    }
    let mut ctx = Context::new();
    match SymbolResolver::try_resolve(&mut ctx, parser::ModId::new(3)) {
        Err(ResolveFailure::Fault(ResolveFault::MissingNode)) => {},
        _ => panic!("expected the missing-node fault"),
    }
}

#[test]
fn type_checks_a_program() {
    let (mut ctx, m) = parsed(PROGRAM);
    assert!(SymbolResolver::resolve(&mut ctx, m).is_ok());
    assert!(TypeChecker::type_check(&mut ctx, m).is_ok());
    let module = ctx.get_module(m).unwrap();
    let body = match ctx.get_item(module.items[0]).unwrap() {
        Item::FnDec(f) => f.body.as_ref().unwrap().stmts.clone(),
        _ => panic!(),
    };
    // `a := 1` gives `a` the type of an integer literal
    let a = ctx.get_vardec_ref(body[0]).unwrap();
    let a_ty = ctx.get_object(a).unwrap().ty.unwrap();
    assert_eq!(described(&mut ctx, a_ty), "IntLiteral");
    // `b: i32 = a + 2`: the sum and the literal take `i32`
    let (sum, two) = match ctx.get_stmt(body[1]).unwrap() {
        Stmt::VarDec(v) => {
            let e = v.val.unwrap();
            match ctx.get_expr(e).unwrap() {
                Expr::Binop(b) => (e, b.right),
                _ => panic!(),
            }
        },
        _ => panic!(),
    };
    let sum_ty = ctx.get_expr_ty_ref(sum).unwrap();
    assert_eq!(described(&mut ctx, sum_ty), "I32");
    let two_ty = ctx.get_expr_ty_ref(two).unwrap();
    assert_eq!(described(&mut ctx, two_ty), "I32");
}

#[test]
fn type_errors() {
    assert_eq!(
        type_error("fn main(): i32 { a: i32 = 1; b: f32 = 2; c := a + b; }"),
        "types don't match"
    );
    assert_eq!(
        type_error("fn f(): i32 { a := 1; } fn main(): i32 { x := f + 1; }"),
        "Can not binop expr (left) Function(Function { args: [], ret_ty: Some(TypeId(0)) })."
    );
    assert_eq!(
        type_error("fn f(): i32 { a := 1; } fn main(): i32 { x := 1 + f; }"),
        "Can not binop expr (right) IntLiteral."
    );
    assert_eq!(
        type_error("fn f(): i32 { a := 1; } fn main(): i32 { x := f(1); }"),
        "fn call args don't match expected args: 0:1"
    );
    assert_eq!(type_error("fn main(): i32 { a := 1; b := a(); }"), "Type is not a function");
    assert_eq!(type_error("fn main(): i32 { a: i32 = 1; b: f32 = a; }"), "types don't match");
}

#[test]
fn type_check_faults() {
    match type_failure("fn f(): i32 { a := 1; } fn main(): i32 { if f { a := 1; } }") {
        TypeCheckFailure::Fault(TypeCheckFault::NotCondition) => {},
        _ => panic!("expected the not-a-condition fault"),
    }
    match type_failure("fn f() { a := 1; } fn main(): i32 { b := f(); }") {
        TypeCheckFailure::Fault(TypeCheckFault::NoReturnType) => {},
        _ => panic!("expected the no-return-type fault"),
    }
    match type_failure("fn main(): *i32 { a := 1; b: *i32 = a; }") {
        TypeCheckFailure::Fault(TypeCheckFault::UnsupportedTypes) => {},
        _ => panic!("expected the unsupported-types fault"),
    }
    let mut ctx = Context::new();
    match TypeChecker::try_type_check(&mut ctx, parser::ModId::new(0)) {
        Err(TypeCheckFailure::Fault(TypeCheckFault::MissingNode)) => {},
        _ => panic!("expected the missing-node fault"),
    }
}

/// A context holding `fn main(): <ret> { return <value>; }` with the records
/// that resolution would make for it, where `value` is a literal, or a name
/// of an `i32` object when `typed`.
fn returning(ret: Option<lib::symbols::TypeId>, text: &str, typed: bool) -> (Context, parser::ModId, parser::ExprId) {
    let mut ctx = Context::new();
    let sp = lib::lexer::span(0, 0, 1, 1);
    let value = if typed {
        let a = ctx.declare_object(Object { name: String::from("a"), ty: Some(lib::symbols::TypeId(0)) });
        let e = ctx.new_expr(Expr::Symbol(parser::Symbol { symbol: String::from("a") }), sp);
        ctx.new_expr_ref(e, a);
        e
    } else {
        ctx.new_expr(Expr::Number(parser::Number { str: String::from(text) }), sp)
    };
    let ret_stmt = ctx.new_stmt(Stmt::Return(value), sp);
    let f = ctx.new_item(
        Item::FnDec(parser::FnDec {
            name: String::from("main"),
            args: Vec::new(),
            ret_ty: None,
            body: Some(parser::Block { stmts: vec![ret_stmt] }),
        }),
        sp,
    );
    let m = ctx.new_mod(parser::Module { items: vec![f] }, sp);
    let fn_ty = ctx.intern_type(Type::Function(Function { args: Vec::new(), ret_ty: ret }));
    let main = ctx.declare_object(Object { name: String::from("main"), ty: Some(fn_ty) });
    ctx.new_item_ref(f, main);
    (ctx, m, value)
}

#[test]
fn return_statements() {
    let (mut ctx, m, _) = returning(None, "1", false);
    match TypeChecker::try_type_check(&mut ctx, m) {
        Err(TypeCheckFailure::Error(e)) => assert_eq!(e, "return expr for no expeced return type"),
        _ => panic!("expected a type error"),
    }
    let (mut ctx, m, _) = returning(Some(lib::symbols::TypeId(1)), "", true);
    match TypeChecker::try_type_check(&mut ctx, m) {
        Err(TypeCheckFailure::Error(e)) => assert_eq!(
            e,
            "return expr type (TypeId(0)) isn't the same as expected return type (TypeId(1)) (types don't match)."
        ),
        _ => panic!("expected a type error"),
    }
    let (mut ctx, m, lit) = returning(Some(lib::symbols::TypeId(1)), "7", false);
    assert!(TypeChecker::type_check(&mut ctx, m).is_ok());
    let lit_ty = ctx.get_expr_ty_ref(lit).unwrap();
    assert_eq!(described(&mut ctx, lit_ty), "F32");
}

#[test]
fn float_literal_meets_integer() {
    // a float literal cannot be written in source; build the tree by hand:
    // fn main(): i32 { a: i32 = 1.5; }
    let mut ctx = Context::new();
    let sp = lib::lexer::span(0, 0, 1, 1);
    let lit = ctx.new_expr(Expr::Number(parser::Number { str: String::from("1.5") }), sp);
    let dec = ctx.new_stmt(
        Stmt::VarDec(parser::VarDec {
            s: String::from("a"),
            ty: Some(parser::TypeSpecifier::Base(String::from("i32"))),
            val: Some(lit),
        }),
        sp,
    );
    let f = ctx.new_item(
        Item::FnDec(parser::FnDec {
            name: String::from("main"),
            args: Vec::new(),
            ret_ty: Some(parser::TypeSpecifier::Base(String::from("i32"))),
            body: Some(parser::Block { stmts: vec![dec] }),
        }),
        sp,
    );
    let m = ctx.new_mod(parser::Module { items: vec![f] }, sp);
    assert!(SymbolResolver::resolve(&mut ctx, m).is_ok());
    match TypeChecker::try_type_check(&mut ctx, m) {
        Err(TypeCheckFailure::Error(e)) => assert_eq!(e, "Right type is an int but left is a float lit"),
        _ => panic!("expected a type error"),
    }
    let lit_ty = ctx.get_expr_ty_ref(lit).unwrap();
    assert_eq!(described(&mut ctx, lit_ty), "FloatLiteral");
}

#[test]
fn float_literal_meets_float() {
    // fn main(): f32 { a: f32 = 2.5; }
    let mut ctx = Context::new();
    let sp = lib::lexer::span(0, 0, 1, 1);
    let lit = ctx.new_expr(Expr::Number(parser::Number { str: String::from("2.5") }), sp);
    let dec = ctx.new_stmt(
        Stmt::VarDec(parser::VarDec {
            s: String::from("a"),
            ty: Some(parser::TypeSpecifier::Base(String::from("f32"))),
            val: Some(lit),
        }),
        sp,
    );
    let f = ctx.new_item(
        Item::FnDec(parser::FnDec {
            name: String::from("main"),
            args: Vec::new(),
            ret_ty: Some(parser::TypeSpecifier::Base(String::from("f32"))),
            body: Some(parser::Block { stmts: vec![dec] }),
        }),
        sp,
    );
    let m = ctx.new_mod(parser::Module { items: vec![f] }, sp);
    assert!(SymbolResolver::resolve(&mut ctx, m).is_ok());
    assert!(TypeChecker::type_check(&mut ctx, m).is_ok());
    let lit_ty = ctx.get_expr_ty_ref(lit).unwrap();
    assert_eq!(described(&mut ctx, lit_ty), "F32");
}

#[test]
fn adding_a_module_runs_every_stage() {
    let mut ctx = Context::new();
    match ctx.add_module_source(&String::from(PROGRAM)) {
        Ok(m) => assert_eq!(m.id(), 0),
        Err(_) => panic!("expected the module to be added"),
    }
    let mut ctx = Context::new();
    match ctx.add_module_source(&String::from("fn main() { $ }")) {
        Err(ModuleError::Lex(lib::lexer::LexerErr::Invalid(m))) => assert_eq!(m, "Invalid char $"),
        _ => panic!("expected a lexing error"),
    }
    let mut ctx = Context::new();
    match ctx.add_module_source(&String::from("x")) {
        Err(ModuleError::Parse(ParseFailure::Error(_))) => {},
        _ => panic!("expected a parse error"),
    }
    let mut ctx = Context::new();
    match ctx.add_module_source(&String::from("fn main(): i32 { b := y; }")) {
        Err(ModuleError::Resolve(ResolveFailure::Error(m))) => assert_eq!(m, "object y does not exist."),
        _ => panic!("expected a resolution error"),
    }
    let mut ctx = Context::new();
    match ctx.add_module_source(&String::from("fn main(): i32 { a: i32 = 1; b: f32 = a; }")) {
        Err(ModuleError::TypeCheck(TypeCheckFailure::Error(m))) => assert_eq!(m, "types don't match"),
        _ => panic!("expected a type error"),
    }
}

#[test]
fn interning_gives_the_same_id() {
    let mut ctx = Context::new();
    let p1 = ctx.intern_type(Type::Pointer(lib::symbols::TypeId(0)));
    let p2 = ctx.intern_type(Type::Pointer(lib::symbols::TypeId(0)));
    assert_eq!(p1, p2);
    assert_eq!(p1.0, 2);
    let i = ctx.intern_type(Type::I32);
    assert_eq!(i.0, 0);
    let q = ctx.intern_type(Type::Pointer(lib::symbols::TypeId(1)));
    assert_eq!(q.0, 3);
    assert_eq!(described(&mut ctx, q), "Pointer(TypeId(1))");
}

#[test]
fn pointer_types_resolve_and_intern() {
    let (mut ctx, m) = parsed("fn main(): **i32 { a := 1; } fn g(): **i32 { b := 1; }");
    assert!(SymbolResolver::resolve(&mut ctx, m).is_ok());
    let module = ctx.get_module(m).unwrap();
    let (i0, i1) = (module.items[0], module.items[1]);
    let f0 = ctx.get_item_ref(i0).unwrap();
    let f1 = ctx.get_item_ref(i1).unwrap();
    let t0 = ctx.get_object(f0).unwrap().ty.unwrap();
    let t1 = ctx.get_object(f1).unwrap().ty.unwrap();
    assert_eq!(t0, t1);
    assert_eq!(described(&mut ctx, t0), "Function(Function { args: [], ret_ty: Some(TypeId(3)) })");
    assert_eq!(described(&mut ctx, lib::symbols::TypeId(3)), "Pointer(TypeId(2))");
    assert_eq!(described(&mut ctx, lib::symbols::TypeId(2)), "Pointer(TypeId(0))");
}

#[test]
fn base_scope_knows_i32_and_f32() {
    let mut ctx = Context::new();
    assert_eq!(ctx.base_scope_get_type(&String::from("i32")), Ok(lib::symbols::TypeId(0)));
    assert_eq!(ctx.base_scope_get_type(&String::from("f32")), Ok(lib::symbols::TypeId(1)));
    assert_eq!(ctx.base_scope_get_type(&String::from("u8")), Err(String::from("Type doesn't exist")));
}

#[test]
fn parsed_nodes_refer_to_earlier_nodes() {
    let (ctx, _) = parsed("fn main(): i32 { a := f(1, 2 + 3) * (4 - 5); if a < 2 { b := a; } else if a { c := 1; } else { d := 2; } } fn f(): i32 { e := 1; }");
    let mut i: usize = 0;
    while let Ok(e) = ctx.get_expr(parser::ExprId::new(i)) {
        match e {
            Expr::Binop(b) => {
                assert!(b.left.id() < i);
                assert!(b.right.id() < i);
            },
            Expr::FnCall(c) => {
                assert!(c.target.id() < i);
                for a in c.args.iter() {
                    assert!(a.id() < i);
                }
            },
            _ => {},
        }
        i += 1;
    }
    assert_eq!(i, 18);
    let mut s: usize = 0;
    while let Ok(st) = ctx.get_stmt(parser::StmtId::new(s)) {
        if let Stmt::IfStmt(x) = st {
            assert!(x.cond.id() < i);
            for b in x.block.stmts.iter() {
                assert!(b.id() < s);
            }
            for alt in x.alt.iter() {
                for b in alt.block.stmts.iter() {
                    assert!(b.id() < s);
                }
            }
            for b in x.else_block.as_ref().unwrap().stmts.iter() {
                assert!(b.id() < s);
            }
        }
        s += 1;
    }
    assert_eq!(s, 6);
}

#[test]
fn every_recorded_reference_names_an_object() {
    let (mut ctx, m) = parsed("fn g(): i32 { a := 1; } fn main(): i32 { x := g(); y := x + 1; if y { z := x; } }");
    assert!(SymbolResolver::resolve(&mut ctx, m).is_ok());
    let mut i: usize = 0;
    let mut refs: usize = 0;
    while ctx.get_expr(parser::ExprId::new(i)).is_ok() {
        if let Ok(Expr::Symbol(_)) = ctx.get_expr(parser::ExprId::new(i)) {
            let o = ctx.get_expr_ref(parser::ExprId::new(i)).unwrap();
            assert!(ctx.get_object(o).is_some());
            refs += 1;
        }
        i += 1;
    }
    assert_eq!(refs, 4);
}

#[test]
fn every_checked_expression_has_a_type() {
    let (mut ctx, m) = parsed("fn g(): i32 { a := 1; } fn main(): i32 { x := g(); y := x + 1; if y { z := 2 + y; } }");
    assert!(SymbolResolver::resolve(&mut ctx, m).is_ok());
    assert!(TypeChecker::type_check(&mut ctx, m).is_ok());
    let mut i: usize = 0;
    while ctx.get_expr(parser::ExprId::new(i)).is_ok() {
        let t = ctx.get_expr_ty_ref(parser::ExprId::new(i));
        assert!(t.is_some());
        assert!(ctx.get_type(t.unwrap()).is_some());
        i += 1;
    }
}

#[test]
fn operand_order_does_not_change_the_type() {
    for code in ["fn main(): i32 { x: i32 = 1; y := x + 2; }", "fn main(): i32 { x: i32 = 1; y := 2 + x; }"] {
        let (mut ctx, m) = parsed(code);
        assert!(SymbolResolver::resolve(&mut ctx, m).is_ok());
        assert!(TypeChecker::type_check(&mut ctx, m).is_ok());
        let module = ctx.get_module(m).unwrap();
        let body = match ctx.get_item(module.items[0]).unwrap() {
            Item::FnDec(f) => f.body.as_ref().unwrap().stmts.clone(),
            _ => panic!(),
        };
        let y = ctx.get_vardec_ref(body[1]).unwrap();
        let ty = ctx.get_object(y).unwrap().ty.unwrap();
        assert_eq!(described(&mut ctx, ty), "I32");
    }
    for code in ["fn main(): i32 { x: i32 = 1; y: f32 = 2; z := x + y; }", "fn main(): i32 { x: i32 = 1; y: f32 = 2; z := y + x; }"] {
        assert_eq!(type_error(code), "types don't match");
    }
}

#[test]
fn added_nodes_are_found_under_their_ids() {
    let mut ctx = Context::new();
    let sp = lib::lexer::span(3, 4, 1, 4);
    let e0 = ctx.new_expr(Expr::Number(parser::Number { str: String::from("42") }), sp);
    let e1 = ctx.new_expr(Expr::Symbol(parser::Symbol { symbol: String::from("x") }), sp);
    assert_eq!(e0.id(), 0);
    assert_eq!(e1.id(), 1);
    match ctx.get_expr(e0).unwrap() {
        Expr::Number(n) => assert_eq!(n.str, "42"),
        _ => panic!(),
    }
    match ctx.get_expr(e1).unwrap() {
        Expr::Symbol(s) => assert_eq!(s.symbol, "x"),
        _ => panic!(),
    }
    let s0 = ctx.new_stmt(Stmt::Expr(e1), sp);
    assert_eq!(s0.id(), 0);
    match ctx.get_stmt(s0).unwrap() {
        Stmt::Expr(e) => assert_eq!(*e, e1),
        _ => panic!(),
    }
    let o = ctx.declare_object(Object { name: String::from("x"), ty: None });
    let o2 = ctx.update_object(o, Object { name: String::from("x"), ty: Some(lib::symbols::TypeId(0)) });
    assert_eq!(o, o2);
    assert_eq!(ctx.get_object(o).unwrap().ty, Some(lib::symbols::TypeId(0)));
    assert!(ctx.get_object(lib::symbols::ObjectId(1)).is_none());
    let t = ctx.declare_type(Type::IntLiteral);
    assert_eq!(t.0, 2);
    ctx.update_type(t, Type::FloatLiteral);
    assert_eq!(described(&mut ctx, t), "FloatLiteral");
    assert_eq!(ctx.objects_len(), 1);
}

#[test]
fn leaving_an_if_returns_to_the_enclosing_scope() {
    let (mut ctx, m) = parsed("fn main(): i32 { a := 1; if a { b := 1; } b := 2; }");
    assert!(SymbolResolver::resolve(&mut ctx, m).is_ok());
    match resolve_failure("fn main(): i32 { a := 1; if a { c := 1; } d := c; }") {
        ResolveFailure::Error(e) => assert_eq!(e, "object c does not exist."),
        _ => panic!("expected an error"),
    }
}

/// `fn main(): i32 { b: i32 = <value>; }`, with the value's nodes already in `ctx`.
fn main_declaring_b(ctx: &mut Context, value: parser::ExprId) -> parser::ModId {
    let sp = lib::lexer::span(0, 0, 1, 1);
    let dec = ctx.new_stmt(
        Stmt::VarDec(parser::VarDec {
            s: String::from("b"),
            ty: Some(parser::TypeSpecifier::Base(String::from("i32"))),
            val: Some(value),
        }),
        sp,
    );
    let f = ctx.new_item(
        Item::FnDec(parser::FnDec {
            name: String::from("main"),
            args: Vec::new(),
            ret_ty: Some(parser::TypeSpecifier::Base(String::from("i32"))),
            body: Some(parser::Block { stmts: vec![dec] }),
        }),
        sp,
    );
    ctx.new_mod(parser::Module { items: vec![f] }, sp)
}

#[test]
fn operands_after_their_operation_are_checked() {
    // the operation `1 + 2` is expression 0, its operands come after it
    let mut ctx = Context::new();
    let sp = lib::lexer::span(0, 0, 1, 1);
    let sum = ctx.new_expr(
        Expr::Binop(parser::Binop {
            left: parser::ExprId::new(1),
            right: parser::ExprId::new(2),
            kind: parser::BinopKind::Add,
        }),
        sp,
    );
    let one = ctx.new_expr(Expr::Number(parser::Number { str: String::from("1") }), sp);
    let two = ctx.new_expr(Expr::Number(parser::Number { str: String::from("2") }), sp);
    assert_eq!(sum.id(), 0);
    let m = main_declaring_b(&mut ctx, sum);
    assert!(SymbolResolver::resolve(&mut ctx, m).is_ok());
    assert!(TypeChecker::type_check(&mut ctx, m).is_ok());
    for e in [sum, one, two] {
        let t = ctx.get_expr_ty_ref(e).unwrap();
        assert_eq!(described(&mut ctx, t), "I32");
    }
}

#[test]
fn operands_after_their_operation_resolve() {
    // `b: i32 = 1; c: i32 = b + b;` with the operation before its operands
    let mut ctx = Context::new();
    let sp = lib::lexer::span(0, 0, 1, 1);
    let sum = ctx.new_expr(
        Expr::Binop(parser::Binop {
            left: parser::ExprId::new(1),
            right: parser::ExprId::new(2),
            kind: parser::BinopKind::Add,
        }),
        sp,
    );
    let left = ctx.new_expr(Expr::Symbol(parser::Symbol { symbol: String::from("b") }), sp);
    let right = ctx.new_expr(Expr::Symbol(parser::Symbol { symbol: String::from("b") }), sp);
    let one = ctx.new_expr(Expr::Number(parser::Number { str: String::from("1") }), sp);
    let dec_b = ctx.new_stmt(
        Stmt::VarDec(parser::VarDec {
            s: String::from("b"),
            ty: Some(parser::TypeSpecifier::Base(String::from("i32"))),
            val: Some(one),
        }),
        sp,
    );
    let dec_c = ctx.new_stmt(
        Stmt::VarDec(parser::VarDec {
            s: String::from("c"),
            ty: Some(parser::TypeSpecifier::Base(String::from("i32"))),
            val: Some(sum),
        }),
        sp,
    );
    let f = ctx.new_item(
        Item::FnDec(parser::FnDec {
            name: String::from("main"),
            args: Vec::new(),
            ret_ty: Some(parser::TypeSpecifier::Base(String::from("i32"))),
            body: Some(parser::Block { stmts: vec![dec_b, dec_c] }),
        }),
        sp,
    );
    let m = ctx.new_mod(parser::Module { items: vec![f] }, sp);
    assert!(SymbolResolver::resolve(&mut ctx, m).is_ok());
    let b = ctx.get_vardec_ref(dec_b).unwrap();
    assert_eq!(ctx.get_expr_ref(left), Some(b));
    assert_eq!(ctx.get_expr_ref(right), Some(b));
    assert!(TypeChecker::type_check(&mut ctx, m).is_ok());
    let t = ctx.get_expr_ty_ref(sum).unwrap();
    assert_eq!(described(&mut ctx, t), "I32");
}

#[test]
fn operation_that_contains_itself_is_a_malformed_tree() {
    let mut ctx = Context::new();
    let sp = lib::lexer::span(0, 0, 1, 1);
    let looped = ctx.new_expr(
        Expr::Binop(parser::Binop {
            left: parser::ExprId::new(0),
            right: parser::ExprId::new(0),
            kind: parser::BinopKind::Add,
        }),
        sp,
    );
    let m = main_declaring_b(&mut ctx, looped);
    match SymbolResolver::try_resolve(&mut ctx, m) {
        Err(ResolveFailure::Fault(ResolveFault::MalformedTree)) => {},
        _ => panic!("expected a malformed tree"),
    }
}

#[test]
fn declaration_with_a_bad_type_is_a_fault() {
    match parse_failure("fn main(): i32 { x : + = 1; }") {
        ParseFailure::Fault(ParseFault::InvalidSymbolInType) => {},
        _ => panic!("expected a fault"),
    }
}

#[test]
fn function_without_body_is_a_fault() {
    let mut ctx = Context::new();
    let sp = lib::lexer::span(0, 0, 1, 1);
    let f = ctx.new_item(
        Item::FnDec(parser::FnDec {
            name: String::from("main"),
            args: Vec::new(),
            ret_ty: Some(parser::TypeSpecifier::Base(String::from("i32"))),
            body: None,
        }),
        sp,
    );
    let m = ctx.new_mod(parser::Module { items: vec![f] }, sp);
    match SymbolResolver::try_resolve(&mut ctx, m) {
        Err(ResolveFailure::Fault(ResolveFault::MissingBody)) => {},
        _ => panic!("expected a fault"),
    }
}

#[test]
fn last_expr_ref_write_wins() {
    let mut ctx = Context::new();
    let e1 = parser::ExprId::new(1);
    let e2 = parser::ExprId::new(2);
    ctx.new_expr_ref(e1, lib::symbols::ObjectId(3));
    ctx.new_expr_ref(e2, lib::symbols::ObjectId(4));
    ctx.new_expr_ref(e1, lib::symbols::ObjectId(5));
    assert_eq!(ctx.get_expr_ref(e1), Some(lib::symbols::ObjectId(5)));
    assert_eq!(ctx.get_expr_ref(e2), Some(lib::symbols::ObjectId(4)));
}

#[test]
fn last_expr_ty_ref_write_wins() {
    let mut ctx = Context::new();
    let e1 = parser::ExprId::new(1);
    let e2 = parser::ExprId::new(2);
    ctx.new_expr_ty_ref(e1, lib::symbols::TypeId(0));
    ctx.new_expr_ty_ref(e2, lib::symbols::TypeId(1));
    ctx.new_expr_ty_ref(e1, lib::symbols::TypeId(2));
    assert_eq!(ctx.get_expr_ty_ref(e1), Some(lib::symbols::TypeId(2)));
    assert_eq!(ctx.get_expr_ty_ref(e2), Some(lib::symbols::TypeId(1)));
}
