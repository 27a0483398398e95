use lib::symbols::{FnArg, Function, NameTable, Object, ObjectId, Scope, Type, TypeId};
use lib::text::{contains_char, debug_text, push_decimal};
use lib::type_check::handle_untyped;
use lib::type_check::NumType::{self, Float, Int, Uint, UntypedFloat, UntypedSignedInteger, UntypedUnsignedInteger};
use lib::utils::is_valid_name;

fn s(x: &str) -> String {
    String::from(x)
}

#[test]
fn declared_object_is_found() {
    let mut sc = Scope::new(None);
    assert!(sc.declare_object(s("a"), ObjectId(3)).is_ok());
    assert_eq!(sc.get_object(&s("a")), Some(&ObjectId(3)));
    assert_eq!(sc.get_object(&s("b")), None);
    assert_eq!(sc.get_type(&s("a")), None);
}

#[test]
fn declared_type_is_found() {
    let mut sc = Scope::new(None);
    assert!(sc.declare_type(s("T"), TypeId(5)).is_ok());
    assert_eq!(sc.get_type(&s("T")), Some(&TypeId(5)));
    assert_eq!(sc.get_object(&s("T")), None);
}

#[test]
fn no_redeclaration() {
    let mut sc = Scope::new(None);
    assert!(sc.declare_object(s("a"), ObjectId(0)).is_ok());
    assert_eq!(sc.declare_object(s("a"), ObjectId(1)), Err(s("Object a already exists.")));
    assert_eq!(sc.declare_type(s("a"), TypeId(1)), Err(s("Type a already exists.")));
    assert_eq!(sc.get_object(&s("a")), Some(&ObjectId(0)));
    assert!(sc.declare_type(s("T"), TypeId(0)).is_ok());
    assert_eq!(sc.declare_object(s("T"), ObjectId(1)), Err(s("Object T already exists as type.")));
    assert_eq!(sc.declare_type(s("T"), TypeId(2)), Err(s("Type T already exists as type.")));
    assert_eq!(
        sc.declare_object_forward_dec(s("a"), ObjectId(2)),
        Err(s("object forward_dec a already exists."))
    );
    assert_eq!(
        sc.declare_object_forward_dec(s("T"), ObjectId(2)),
        Err(s("object forward_dec T already exists as a type."))
    );
    assert_eq!(
        sc.declare_type_forward_dec(s("a"), TypeId(2)),
        Err(s("Type forward_dec a already exists as an object."))
    );
    assert_eq!(sc.declare_type_forward_dec(s("T"), TypeId(2)), Err(s("Type forward_dec T already exists.")));
}

#[test]
fn forward_declarations() {
    let mut sc = Scope::new(None);
    assert!(sc.declare_object_forward_dec(s("f"), ObjectId(7)).is_ok());
    assert_eq!(sc.is_object_foreward_dec(&s("f")), Some(ObjectId(7)));
    assert_eq!(sc.get_object(&s("f")), Some(&ObjectId(7)));
    assert_eq!(
        sc.declare_object_forward_dec(s("f"), ObjectId(8)),
        Err(s("object forward_dec f already exists as an object forward dec."))
    );
    assert_eq!(
        sc.declare_type_forward_dec(s("f"), TypeId(8)),
        Err(s("Type forward_dec f already exists as an object forward dec."))
    );
    assert_eq!(sc.declare_type(s("f"), TypeId(1)), Err(s("Type f is expected to be a object")));
    // the declaration fulfils the one made ahead
    assert!(sc.declare_object(s("f"), ObjectId(7)).is_ok());
    assert_eq!(sc.is_object_foreward_dec(&s("f")), None);
    assert_eq!(sc.get_object(&s("f")), Some(&ObjectId(7)));

    assert!(sc.declare_type_forward_dec(s("S"), TypeId(4)).is_ok());
    assert_eq!(sc.is_type_foreward_dec(&s("S")), Some(TypeId(4)));
    assert_eq!(sc.get_type(&s("S")), Some(&TypeId(4)));
    assert_eq!(
        sc.declare_type_forward_dec(s("S"), TypeId(4)),
        Err(s("Type forward_dec S already exists as a type forward dec."))
    );
    assert_eq!(sc.declare_object(s("S"), ObjectId(1)), Err(s("object S is expected to be a type")));
    assert!(sc.declare_type(s("S"), TypeId(4)).is_ok());
    assert_eq!(sc.is_type_foreward_dec(&s("S")), None);
}

#[test]
fn name_table() {
    let mut t: NameTable<u32> = NameTable::new();
    assert_eq!(t.get(&s("x")), None);
    t.insert_new(s("x"), 1);
    t.insert_new(s("y"), 2);
    assert_eq!(t.get(&s("x")), Some(&1));
    assert_eq!(t.get(&s("y")), Some(&2));
    t.remove(&s("x"));
    assert_eq!(t.get(&s("x")), None);
    assert_eq!(t.get(&s("y")), Some(&2));
    t.remove(&s("z"));
    assert_eq!(t.get(&s("y")), Some(&2));
}

#[test]
fn type_predicates() {
    assert!(Type::IntLiteral.is_untyped());
    assert!(Type::FloatLiteral.is_untyped());
    assert!(!Type::I32.is_untyped());
    assert!(Type::F32.is_float() && Type::FloatLiteral.is_float() && !Type::I32.is_float());
    assert!(Type::I32.is_integer() && Type::IntLiteral.is_integer() && !Type::F32.is_integer());
    assert!(Type::I32.is_numeric() && Type::F32.is_numeric());
    assert!(!Type::Pointer(TypeId(0)).is_numeric());
    assert!(!Type::Pointer(TypeId(0)).can_binop());
    assert!(!Type::Pointer(TypeId(0)).is_cond());
    assert!(Type::I32.can_binop() && Type::I32.is_cond());
    match Type::I32.get_fn() {
        Err(m) => assert_eq!(m, "Type is not a function"),
        Ok(_) => panic!(),
    }
    let f = Type::Function(Function { args: Vec::new(), ret_ty: None });
    assert!(f.get_fn().is_ok());
    assert!(!f.is_numeric());
}

#[test]
fn type_equality_and_description() {
    let f1 = Type::Function(Function {
        args: vec![FnArg { name: s("x"), ty: TypeId(0) }, FnArg { name: s("y\"z"), ty: TypeId(1) }],
        ret_ty: Some(TypeId(1)),
    });
    let f2 = f1.clone();
    assert!(f1 == f2);
    assert!(f1 != Type::Function(Function { args: Vec::new(), ret_ty: Some(TypeId(1)) }));
    assert!(Type::I32 != Type::F32);
    assert_eq!(
        f1.describe(),
        "Function(Function { args: [FnArg { name: \"x\", ty: TypeId(0) }, FnArg { name: \"y\\\"z\", ty: TypeId(1) }], ret_ty: Some(TypeId(1)) })"
    );
    assert_eq!(Type::FloatLiteral.describe(), "FloatLiteral");
    assert_eq!(Type::Pointer(TypeId(12)).describe(), "Pointer(TypeId(12))");
    let o = Object { name: s("v"), ty: None };
    assert_eq!(o.clone().name, "v");
}

#[test]
fn valid_names() {
    assert!(is_valid_name("a"));
    assert!(is_valid_name("Abc1"));
    assert!(is_valid_name("_a"));
    assert!(is_valid_name("__"));
    assert!(!is_valid_name("_"));
    assert!(!is_valid_name(""));
    assert!(!is_valid_name("1a"));
    assert!(!is_valid_name("é"));
    assert!(is_valid_name("_é"));
}

#[test]
fn untyped_meets() {
    assert_eq!(handle_untyped(&UntypedSignedInteger, &UntypedFloat), Ok(UntypedFloat));
    assert_eq!(handle_untyped(&UntypedSignedInteger, &UntypedUnsignedInteger), Ok(UntypedSignedInteger));
    assert_eq!(handle_untyped(&UntypedUnsignedInteger, &UntypedUnsignedInteger), Ok(UntypedUnsignedInteger));
    assert_eq!(handle_untyped(&UntypedFloat, &Int), Ok(Float));
    assert_eq!(handle_untyped(&UntypedUnsignedInteger, &Uint), Ok(Int));
    assert_eq!(handle_untyped(&UntypedUnsignedInteger, &Float), Ok(Uint));
    assert_eq!(handle_untyped(&Int, &Int), Ok(Int));
    assert_eq!(handle_untyped(&Int, &Uint), Err(s("Types don't match")));
    let all = [Float, Int, Uint, UntypedFloat, UntypedSignedInteger, UntypedUnsignedInteger];
    for a in all.iter() {
        for b in all.iter() {
            assert_eq!(handle_untyped(a, b), handle_untyped(b, a));
            if let Ok(t) = handle_untyped(a, b) {
                assert_eq!(t.is_untyped(), a.is_untyped() && b.is_untyped());
            }
        }
    }
}

#[test]
fn text_helpers() {
    assert!(contains_char("1.5", '.'));
    assert!(!contains_char("15", '.'));
    assert!(!contains_char("", '.'));
    let mut t = s("n=");
    push_decimal(&mut t, 0);
    push_decimal(&mut t, 1234567);
    assert_eq!(t, "n=01234567");
    assert_eq!(debug_text(&s("a\"b\n")), "\"a\\\"b\\n\"");
}
