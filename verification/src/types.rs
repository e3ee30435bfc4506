//! The types of SPL values.
use vstd::prelude::*;

verus! {

/// A type: an array type or a primitive type.
#[derive(Debug)]
pub enum Type {
    ArrayType(ArrayType),
    PrimitiveType(PrimitiveType),
}

/// `array [size] of base_type`.
#[derive(Debug)]
pub struct ArrayType {
    pub base_type: Box<Type>,
    pub size: usize,
}

/// The primitive types.
#[derive(Debug, PartialEq, Eq, Clone, Copy)]
pub enum PrimitiveType {
    Int,
    Bool,
}

impl Clone for Type {
    fn clone(&self) -> (r: Self)
        ensures
            r == *self,
        decreases self,
    {
        match self {
            Type::ArrayType(a) => Type::ArrayType(a.clone()),
            Type::PrimitiveType(p) => Type::PrimitiveType(*p),
        }
    }
}

impl Clone for ArrayType {
    fn clone(&self) -> (r: Self)
        ensures
            r == *self,
        decreases self,
    {
        ArrayType { base_type: Box::new((*self.base_type).clone()), size: self.size }
    }
}

/// The number of bytes a value of the type occupies (an `int` takes 4); `None` where
/// the type holds a `bool`, which has no size.
pub open spec fn spec_byte_size(t: Type) -> Option<int>
    decreases t,
{
    match t {
        Type::PrimitiveType(PrimitiveType::Int) => Some(4),
        Type::PrimitiveType(PrimitiveType::Bool) => None,
        Type::ArrayType(a) => match spec_byte_size(*a.base_type) {
            Some(b) => Some(b * a.size),
            None => None,
        },
    }
}

/// The byte size is defined and every intermediate product fits in an `i32`.
pub open spec fn byte_size_fits(t: Type) -> bool
    decreases t,
{
    match t {
        Type::PrimitiveType(PrimitiveType::Int) => true,
        Type::PrimitiveType(PrimitiveType::Bool) => false,
        Type::ArrayType(a) => byte_size_fits(*a.base_type) && a.size <= i32::MAX
            && spec_byte_size(*a.base_type).unwrap() * a.size <= i32::MAX,
    }
}

/// A byte size that fits is never negative.
pub proof fn lemma_byte_size_nonneg(t: Type)
    requires
        byte_size_fits(t),
    ensures
        spec_byte_size(t) is Some,
        0 <= spec_byte_size(t).unwrap() <= i32::MAX,
    decreases t,
{
    if let Type::ArrayType(a) = t {
        lemma_byte_size_nonneg(*a.base_type);
        let b = spec_byte_size(*a.base_type).unwrap();
        assert(0 <= b * a.size) by (nonlinear_arith)
            requires
                0 <= b,
                0 <= a.size,
        ;
    }
}

impl Type {
    /// The type `int`.
    pub fn int_type() -> (r: Type)
        ensures
            r == Type::PrimitiveType(PrimitiveType::Int),
    {
        Type::PrimitiveType(PrimitiveType::Int)
    }

    /// The type `bool`.
    pub fn bool_type() -> (r: Type)
        ensures
            r == Type::PrimitiveType(PrimitiveType::Bool),
    {
        Type::PrimitiveType(PrimitiveType::Bool)
    }

    /// Whether this is an array type.
    pub fn is_array(&self) -> (r: bool)
        ensures
            r == (*self is ArrayType),
    {
        match self {
            Type::ArrayType(_) => true,
            _ => false,
        }
    }

    /// Whether this is the type `bool`.
    pub fn is_bool(&self) -> (r: bool)
        ensures
            r == (*self == Type::PrimitiveType(PrimitiveType::Bool)),
    {
        match self {
            Type::PrimitiveType(PrimitiveType::Bool) => true,
            _ => false,
        }
    }

    /// Whether this is the type `int`.
    pub fn is_int(&self) -> (r: bool)
        ensures
            r == (*self == Type::PrimitiveType(PrimitiveType::Int)),
    {
        match self {
            Type::PrimitiveType(PrimitiveType::Int) => true,
            _ => false,
        }
    }

    /// Structural equality of two types.
    pub fn equals(&self, other: &Type) -> (r: bool)
        ensures
            r == (*self == *other),
        decreases self,
    {
        match (self, other) {
            (Type::PrimitiveType(a), Type::PrimitiveType(b)) => match (a, b) {
                (PrimitiveType::Int, PrimitiveType::Int) => true,
                (PrimitiveType::Bool, PrimitiveType::Bool) => true,
                _ => false,
            },
            (Type::ArrayType(a), Type::ArrayType(b)) => a.size == b.size
                && (*a.base_type).equals(&*b.base_type),
            _ => false,
        }
    }

    /// The number of bytes of a value of this type.
    pub fn get_byte_size(&self) -> (r: i32)
        requires
            byte_size_fits(*self),
        ensures
            r == spec_byte_size(*self).unwrap(),
        decreases self,
    {
        match self {
            Type::ArrayType(a) => {
                proof {
                    lemma_byte_size_nonneg(*a.base_type);
                }
                let b = (*a.base_type).get_byte_size();
                let n = a.size as i32;
                b * n
            },
            Type::PrimitiveType(_) => 4,
        }
    }
}

} // verus!
