use vstd::prelude::*;

verus! {

/// The numeric domain of an expression graph.
///
/// Every operation is a function of its arguments: its result is the matching
/// spec function applied to them. Graph algorithms are stated over these spec
/// functions, so they hold for any domain whose operations are deterministic.
pub trait Scalar: Sized {
    spec fn spec_zero() -> Self;

    spec fn spec_one() -> Self;

    spec fn spec_neg(a: Self) -> Self;

    spec fn spec_plus(a: Self, b: Self) -> Self;

    spec fn spec_minus(a: Self, b: Self) -> Self;

    spec fn spec_times(a: Self, b: Self) -> Self;

    spec fn spec_divide(a: Self, b: Self) -> Self;

    spec fn spec_powf(a: Self, e: Self) -> Self;

    spec fn spec_sin(a: Self) -> Self;

    spec fn spec_cos(a: Self) -> Self;

    fn zero() -> (r: Self)
        ensures
            r == Self::spec_zero(),
    ;

    fn one() -> (r: Self)
        ensures
            r == Self::spec_one(),
    ;

    fn duplicate(&self) -> (r: Self)
        ensures
            r == *self,
    ;

    fn neg(&self) -> (r: Self)
        ensures
            r == Self::spec_neg(*self),
    ;

    fn plus(&self, o: &Self) -> (r: Self)
        ensures
            r == Self::spec_plus(*self, *o),
    ;

    fn minus(&self, o: &Self) -> (r: Self)
        ensures
            r == Self::spec_minus(*self, *o),
    ;

    fn times(&self, o: &Self) -> (r: Self)
        ensures
            r == Self::spec_times(*self, *o),
    ;

    fn divide(&self, o: &Self) -> (r: Self)
        ensures
            r == Self::spec_divide(*self, *o),
    ;

    fn powf(&self, e: &Self) -> (r: Self)
        ensures
            r == Self::spec_powf(*self, *e),
    ;

    fn sin(&self) -> (r: Self)
        ensures
            r == Self::spec_sin(*self),
    ;

    fn cos(&self) -> (r: Self)
        ensures
            r == Self::spec_cos(*self),
    ;
}

/// A symbolic scalar: the unevaluated term that a computation builds.
///
/// Running the engine over terms yields the exact formula of a value or a
/// gradient, with leaves named by number.
#[derive(PartialEq, Eq, Debug)]
pub enum Term {
    Zero,
    One,
    Leaf(u64),
    Neg(Box<Term>),
    Plus(Box<Term>, Box<Term>),
    Minus(Box<Term>, Box<Term>),
    Times(Box<Term>, Box<Term>),
    Divide(Box<Term>, Box<Term>),
    Powf(Box<Term>, Box<Term>),
    Sin(Box<Term>),
    Cos(Box<Term>),
}

impl Term {
    /// A copy of the term, node for node.
    pub fn copy_term(&self) -> (r: Term)
        ensures
            r == *self,
        decreases self,
    {
        match self {
            Term::Zero => Term::Zero,
            Term::One => Term::One,
            Term::Leaf(n) => Term::Leaf(*n),
            Term::Neg(a) => Term::Neg(Box::new(a.copy_term())),
            Term::Plus(a, b) => Term::Plus(Box::new(a.copy_term()), Box::new(b.copy_term())),
            Term::Minus(a, b) => Term::Minus(Box::new(a.copy_term()), Box::new(b.copy_term())),
            Term::Times(a, b) => Term::Times(Box::new(a.copy_term()), Box::new(b.copy_term())),
            Term::Divide(a, b) => Term::Divide(Box::new(a.copy_term()), Box::new(b.copy_term())),
            Term::Powf(a, b) => Term::Powf(Box::new(a.copy_term()), Box::new(b.copy_term())),
            Term::Sin(a) => Term::Sin(Box::new(a.copy_term())),
            Term::Cos(a) => Term::Cos(Box::new(a.copy_term())),
        }
    }
}

impl Scalar for Term {
    open spec fn spec_zero() -> Term {
        Term::Zero
    }

    open spec fn spec_one() -> Term {
        Term::One
    }

    open spec fn spec_neg(a: Term) -> Term {
        Term::Neg(Box::new(a))
    }

    open spec fn spec_plus(a: Term, b: Term) -> Term {
        Term::Plus(Box::new(a), Box::new(b))
    }

    open spec fn spec_minus(a: Term, b: Term) -> Term {
        Term::Minus(Box::new(a), Box::new(b))
    }

    open spec fn spec_times(a: Term, b: Term) -> Term {
        Term::Times(Box::new(a), Box::new(b))
    }

    open spec fn spec_divide(a: Term, b: Term) -> Term {
        Term::Divide(Box::new(a), Box::new(b))
    }

    open spec fn spec_powf(a: Term, e: Term) -> Term {
        Term::Powf(Box::new(a), Box::new(e))
    }

    open spec fn spec_sin(a: Term) -> Term {
        Term::Sin(Box::new(a))
    }

    open spec fn spec_cos(a: Term) -> Term {
        Term::Cos(Box::new(a))
    }

    fn zero() -> (r: Term) {
        Term::Zero
    }

    fn one() -> (r: Term) {
        Term::One
    }

    fn duplicate(&self) -> (r: Term) {
        self.copy_term()
    }

    fn neg(&self) -> (r: Term) {
        Term::Neg(Box::new(self.copy_term()))
    }

    fn plus(&self, o: &Term) -> (r: Term) {
        Term::Plus(Box::new(self.copy_term()), Box::new(o.copy_term()))
    }

    fn minus(&self, o: &Term) -> (r: Term) {
        Term::Minus(Box::new(self.copy_term()), Box::new(o.copy_term()))
    }

    fn times(&self, o: &Term) -> (r: Term) {
        Term::Times(Box::new(self.copy_term()), Box::new(o.copy_term()))
    }

    fn divide(&self, o: &Term) -> (r: Term) {
        Term::Divide(Box::new(self.copy_term()), Box::new(o.copy_term()))
    }

    fn powf(&self, e: &Term) -> (r: Term) {
        Term::Powf(Box::new(self.copy_term()), Box::new(e.copy_term()))
    }

    fn sin(&self) -> (r: Term) {
        Term::Sin(Box::new(self.copy_term()))
    }

    fn cos(&self) -> (r: Term) {
        Term::Cos(Box::new(self.copy_term()))
    }
}

} // verus!
