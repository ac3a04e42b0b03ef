use vstd::prelude::*;

verus! {

/// A combinator term: the three primitives and application.
#[derive(Debug, PartialEq, Eq)]
pub enum Expr {
    I,
    K,
    S,
    A(Box<Expr>, Box<Expr>),
}

impl Clone for Expr {
    fn clone(&self) -> (e: Self)
        ensures
            e == *self,
        decreases self,
    {
        match self {
            Expr::I => Expr::I,
            Expr::K => Expr::K,
            Expr::S => Expr::S,
            Expr::A(l, r) => Expr::A(Box::new((**l).clone()), Box::new((**r).clone())),
        }
    }
}

impl core::ops::Mul for Expr {
    type Output = Expr;

    /// The application of `self` to `rhs`.
    fn mul(self, rhs: Self) -> (e: Expr) {
        Expr::A(Box::new(self), Box::new(rhs))
    }
}

impl vstd::std_specs::ops::MulSpecImpl for Expr {
    open spec fn obeys_mul_spec() -> bool {
        true
    }

    open spec fn mul_req(self, rhs: Expr) -> bool {
        true
    }

    open spec fn mul_spec(self, rhs: Expr) -> Expr {
        Expr::A(Box::new(self), Box::new(rhs))
    }
}

} // verus!
