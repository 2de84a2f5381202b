//! The built-in types of the scripting language and the values its literal
//! expressions evaluate to.

use vstd::prelude::*;
use vstd::string::StringExecFns;

verus! {

/// A named type known to the registry.
#[derive(Debug)]
pub struct Type {
    pub name: String,
}

impl Type {
    /// An explicit copy that is provably equal to the original.
    pub fn duplicate(&self) -> (r: Type)
        ensures
            r == *self,
    {
        Type { name: self.name.clone() }
    }
}

/// The built-in types every root scope is seeded with, in registry order:
/// `int`, `float`, `Vec2`, `void`.
pub fn base_types() -> (r: Vec<Type>)
    ensures
        r@.len() == 4,
        r@[0].name@ == "int"@,
        r@[1].name@ == "float"@,
        r@[2].name@ == "Vec2"@,
        r@[3].name@ == "void"@,
{
    let mut v: Vec<Type> = Vec::new();
    v.push(Type { name: String::from_str("int") });
    v.push(Type { name: String::from_str("float") });
    v.push(Type { name: String::from_str("Vec2") });
    v.push(Type { name: String::from_str("void") });
    v
}

/// A float literal held exactly: the decimal digits accumulated into an
/// integer mantissa, the count of digits after the decimal point, and the
/// folded sign. The denoted value is `mantissa / 10^frac_digits`, negated
/// when `negative` holds. A mantissa whose digits exceed `u64::MAX` is
/// clamped to `u64::MAX`.
#[derive(PartialEq, Eq, Structural, Clone, Copy, Debug)]
pub struct FloatLit {
    pub negative: bool,
    pub mantissa: u64,
    pub frac_digits: usize,
}

/// The payload of a literal expression.
#[derive(PartialEq, Eq, Structural, Clone, Copy, Debug)]
pub enum ValueData {
    Int(i32),
    Float(FloatLit),
}

/// A typed value: the payload together with the built-in type it belongs to.
#[derive(Debug)]
pub struct Value {
    pub typ: Type,
    pub data: ValueData,
}

} // verus!
