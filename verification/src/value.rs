//! Values of expressions: numbers, the infinities past their bound, and
//! "not a number", as a double-precision float has them.
use vstd::prelude::*;
use crate::number::{fits, Num};

verus! {

/// A value as the contracts see it: a number in units, an infinity (with
/// its sign: `true` for the negative one), or not a number.
pub enum SpecValue {
    Finite(int),
    Infinite(bool),
    NaN,
}

/// A value in units, or the infinity of its sign when it does not fit.
pub open spec fn fit(v: int) -> SpecValue {
    if fits(v) {
        SpecValue::Finite(v)
    } else {
        SpecValue::Infinite(v < 0)
    }
}

/// The value of an expression.
#[derive(Debug)]
pub enum Value {
    Finite(Num),
    Infinite(bool),
    NaN,
}

impl View for Value {
    type V = SpecValue;

    open spec fn view(&self) -> SpecValue {
        match self {
            Value::Finite(n) => SpecValue::Finite(n@),
            Value::Infinite(negative) => SpecValue::Infinite(*negative),
            Value::NaN => SpecValue::NaN,
        }
    }
}

impl Value {
    /// A copy of this value.
    pub fn copy(&self) -> (r: Value)
        ensures
            r@ == self@,
    {
        match self {
            Value::Finite(n) => Value::Finite(n.copy()),
            Value::Infinite(negative) => Value::Infinite(*negative),
            Value::NaN => Value::NaN,
        }
    }

    /// The value of a number, or the infinity of `negative` when there is
    /// none.
    pub fn finite_or(o: Option<Num>, negative: bool) -> (r: Value)
        ensures
            r@ == match o {
                Some(n) => SpecValue::Finite(n@),
                None => SpecValue::Infinite(negative),
            },
    {
        match o {
            Some(n) => Value::Finite(n),
            None => Value::Infinite(negative),
        }
    }
}

} // verus!
