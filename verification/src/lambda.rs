use vstd::prelude::*;

verus! {

/// What can be applied to an argument.
pub trait Apply {
    type Argument;

    type Target;

    /// Applies `self` to `arg`; `None` where the reduction is given up at `depth`.
    fn apply(&self, arg: Self::Argument, depth: u64) -> Option<Self::Target>;
}

/// What can be brought to its value.
pub trait Eval {
    type Target;

    fn eval(&self) -> Self::Target;
}

/// A term of a calculus: it can be applied and evaluated.
pub trait Lambda: Apply + Eval {

}

} // verus!
