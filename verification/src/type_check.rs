use vstd::prelude::*;

verus! {

/// The numeric types: typed ones, and the types of literals before they
/// meet a typed one.
#[derive(Clone, Copy, PartialEq, Eq, Structural, Debug)]
pub enum NumType {
    Float,
    Int,
    Uint,
    UntypedFloat,
    UntypedSignedInteger,
    UntypedUnsignedInteger,
}

impl NumType {
    pub open spec fn untyped(self) -> bool {
        self is UntypedFloat || self is UntypedSignedInteger || self is UntypedUnsignedInteger
    }

    pub open spec fn float(self) -> bool {
        self is Float || self is UntypedFloat
    }

    pub open spec fn signed(self) -> bool {
        self is Int || self is UntypedSignedInteger
    }

    pub open spec fn integer(self) -> bool {
        !self.float()
    }

    pub fn is_untyped(&self) -> (r: bool)
        ensures
            r == self.untyped(),
    {
        match self {
            NumType::UntypedFloat | NumType::UntypedSignedInteger | NumType::UntypedUnsignedInteger => true,
            _ => false,
        }
    }

    pub fn is_float(&self) -> (r: bool)
        ensures
            r == self.float(),
    {
        match self {
            NumType::Float | NumType::UntypedFloat => true,
            _ => false,
        }
    }

    pub fn is_signed(&self) -> (r: bool)
        ensures
            r == self.signed(),
    {
        match self {
            NumType::Int | NumType::UntypedSignedInteger => true,
            _ => false,
        }
    }

    pub fn is_integer(&self) -> (r: bool)
        ensures
            r == self.integer(),
    {
        !self.is_float()
    }
}

/// The type that two numeric types come to when they meet. Two literal
/// types stay a literal type (float over signed over unsigned); a literal
/// meeting a typed one becomes typed (a float literal a float; else signed
/// when either is signed or the typed one an integer, else unsigned); two
/// typed ones must be the same.
pub open spec fn untyped_meet(l: NumType, r: NumType) -> Result<NumType, Seq<char>> {
    if l.untyped() && r.untyped() {
        if l.float() || r.float() {
            Ok(NumType::UntypedFloat)
        } else if l.signed() || r.signed() {
            Ok(NumType::UntypedSignedInteger)
        } else {
            Ok(NumType::UntypedUnsignedInteger)
        }
    } else if l.untyped() {
        if l.float() {
            Ok(NumType::Float)
        } else if l.signed() || r.integer() {
            Ok(NumType::Int)
        } else {
            Ok(NumType::Uint)
        }
    } else if r.untyped() {
        if r.float() {
            Ok(NumType::Float)
        } else if r.signed() || l.integer() {
            Ok(NumType::Int)
        } else {
            Ok(NumType::Uint)
        }
    } else if l == r {
        Ok(l)
    } else {
        Err("Types don't match"@)
    }
}

/// The type that `l` and `r` come to when they meet, or why they cannot.
pub fn handle_untyped(l: &NumType, r: &NumType) -> (res: Result<NumType, String>)
    ensures
        match untyped_meet(*l, *r) {
            Ok(t) => res == Ok::<NumType, String>(t),
            Err(m) => res matches Err(e) && e@ == m,
        },
{
    if l.is_untyped() && r.is_untyped() {
        if l.is_float() || r.is_float() {
            Ok(NumType::UntypedFloat)
        } else if l.is_signed() || r.is_signed() {
            Ok(NumType::UntypedSignedInteger)
        } else {
            Ok(NumType::UntypedUnsignedInteger)
        }
    } else if l.is_untyped() {
        if l.is_float() {
            Ok(NumType::Float)
        } else if l.is_signed() || r.is_integer() {
            Ok(NumType::Int)
        } else {
            Ok(NumType::Uint)
        }
    } else if r.is_untyped() {
        if r.is_float() {
            Ok(NumType::Float)
        } else if r.is_signed() || l.is_integer() {
            Ok(NumType::Int)
        } else {
            Ok(NumType::Uint)
        }
    } else if *l == *r {
        Ok(*l)
    } else {
        Err(String::from_str("Types don't match"))
    }
}

/// A type meets itself in itself: literal or typed, a numeric type that
/// meets the same type comes out unchanged.
pub proof fn law_meet_idempotent(t: NumType)
    ensures
        untyped_meet(t, t) == Ok::<NumType, Seq<char>>(t),
{
}

/// Two typed numeric types meet only when they are the same type, and then
/// in that type.
pub proof fn law_typed_meet_is_equality(l: NumType, r: NumType)
    requires
        !l.untyped(),
        !r.untyped(),
    ensures
        untyped_meet(l, r) is Ok <==> l == r,
        untyped_meet(l, r) matches Ok(t) ==> t == l,
{
}

/// The meeting of two numeric types does not depend on their order.
pub proof fn law_meet_symmetric(l: NumType, r: NumType)
    ensures
        untyped_meet(l, r) == untyped_meet(r, l),
{
}

/// A literal type comes out only of two literal types; when either side is
/// typed, so is the result.
pub proof fn law_meet_typed_wins(l: NumType, r: NumType)
    ensures
        untyped_meet(l, r) matches Ok(t) ==> (t.untyped() <==> l.untyped() && r.untyped()),
{
}

} // verus!
