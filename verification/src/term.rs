use vstd::prelude::*;
use vstd::std_specs::convert::FromSpecImpl;
use vstd::std_specs::convert::TryFromSpecImpl;
use crate::error::InvalidTokenAsArgument;
use crate::lambda::{Apply, Eval, Lambda};
use crate::token::{Atom, Token};

verus! {

/// The one argument that a partly applied combinator holds.
#[derive(Debug, PartialEq, Eq, Hash)]
pub struct SkiContainer1 {
    pub content: Box<Ski>,
}

/// The two arguments that a partly applied S holds, in the order in which they came.
#[derive(Debug, PartialEq, Eq, Hash)]
pub struct SkiContainer2 {
    pub content_1: Box<Ski>,
    pub content_2: Box<Ski>,
}

/// A value of the calculus: a combinator, bare or holding the arguments it has taken so
/// far.
#[derive(Debug, PartialEq, Eq, Hash)]
pub enum Ski {
    S,
    K,
    I,
    /// S with one argument.
    Sp(SkiContainer1),
    /// K with one argument.
    Kp(SkiContainer1),
    /// S with two arguments.
    Spp(SkiContainer2),
}

impl Clone for SkiContainer1 {
    fn clone(&self) -> (r: Self)
        ensures
            r == *self,
    {
        SkiContainer1 { content: Box::new(self.content.duplicate()) }
    }
}

impl Clone for SkiContainer2 {
    fn clone(&self) -> (r: Self)
        ensures
            r == *self,
    {
        SkiContainer2 {
            content_1: Box::new(self.content_1.duplicate()),
            content_2: Box::new(self.content_2.duplicate()),
        }
    }
}

impl Clone for Ski {
    fn clone(&self) -> (r: Self)
        ensures
            r == *self,
    {
        self.duplicate()
    }
}

impl From<Ski> for SkiContainer1 {
    fn from(content: Ski) -> (r: Self) {
        SkiContainer1 { content: Box::new(content) }
    }
}

impl FromSpecImpl<Ski> for SkiContainer1 {
    open spec fn obeys_from_spec() -> bool {
        true
    }

    open spec fn from_spec(content: Ski) -> Self {
        SkiContainer1 { content: Box::new(content) }
    }
}

impl SkiContainer1 {
    /// A copy of the held argument.
    pub fn get(&self) -> (r: Ski)
        ensures
            r == *self.content,
    {
        self.content.duplicate()
    }
}

impl From<(Ski, Ski)> for SkiContainer2 {
    fn from(content: (Ski, Ski)) -> (r: Self) {
        SkiContainer2 { content_1: Box::new(content.0), content_2: Box::new(content.1) }
    }
}

impl FromSpecImpl<(Ski, Ski)> for SkiContainer2 {
    open spec fn obeys_from_spec() -> bool {
        true
    }

    open spec fn from_spec(content: (Ski, Ski)) -> Self {
        SkiContainer2 { content_1: Box::new(content.0), content_2: Box::new(content.1) }
    }
}

impl SkiContainer2 {
    /// A copy of the argument that came first.
    pub fn first(&self) -> (r: Ski)
        ensures
            r == *self.content_1,
    {
        self.content_1.duplicate()
    }

    /// A copy of the argument that came second.
    pub fn second(&self) -> (r: Ski)
        ensures
            r == *self.content_2,
    {
        self.content_2.duplicate()
    }
}

impl From<Atom> for Ski {
    fn from(a: Atom) -> (r: Self) {
        match a {
            Atom::S => Ski::S,
            Atom::K => Ski::K,
            Atom::I => Ski::I,
        }
    }
}

impl FromSpecImpl<Atom> for Ski {
    open spec fn obeys_from_spec() -> bool {
        true
    }

    open spec fn from_spec(a: Atom) -> Self {
        Ski::lift(a)
    }
}

impl TryFrom<Token> for Ski {
    type Error = InvalidTokenAsArgument;

    /// The bare combinator that a token names; the application mark names none.
    fn try_from(t: Token) -> (r: Result<Self, InvalidTokenAsArgument>) {
        match t {
            Token::Atom(a) => match a {
                Atom::S => Ok(Ski::S),
                Atom::K => Ok(Ski::K),
                Atom::I => Ok(Ski::I),
            },
            Token::Apply => Err(InvalidTokenAsArgument::new(Token::a())),
        }
    }
}

impl TryFromSpecImpl<Token> for Ski {
    open spec fn obeys_try_from_spec() -> bool {
        true
    }

    open spec fn try_from_spec(t: Token) -> Result<Self, InvalidTokenAsArgument> {
        match t {
            Token::Atom(a) => Ok(Ski::lift(a)),
            Token::Apply => Err(InvalidTokenAsArgument(Token::Apply)),
        }
    }
}

impl Ski {
    /// The bare combinator that an atom names.
    pub open spec fn lift(a: Atom) -> Ski {
        match a {
            Atom::S => Ski::S,
            Atom::K => Ski::K,
            Atom::I => Ski::I,
        }
    }

    /// S holding `x`.
    pub open spec fn sp(x: Ski) -> Ski {
        Ski::Sp(SkiContainer1 { content: Box::new(x) })
    }

    /// K holding `x`.
    pub open spec fn kp(x: Ski) -> Ski {
        Ski::Kp(SkiContainer1 { content: Box::new(x) })
    }

    /// S holding `x` and `y`.
    pub open spec fn spp(x: Ski, y: Ski) -> Ski {
        Ski::Spp(SkiContainer2 { content_1: Box::new(x), content_2: Box::new(y) })
    }

    /// What `self` applied to `arg` reduces to, if the reduction needs no more than
    /// `depth` nested uses of the rule for a saturated S; `None` if it needs more.
    pub open spec fn spec_apply(self, arg: Ski, depth: nat) -> Option<Ski>
        decreases depth,
    {
        match self {
            Ski::S => Some(Ski::sp(arg)),
            Ski::K => Some(Ski::kp(arg)),
            Ski::I => Some(arg),
            Ski::Sp(sp) => Some(Ski::spp(*sp.content, arg)),
            Ski::Kp(kp) => Some(*kp.content),
            Ski::Spp(spp) => if depth == 0 {
                None
            } else {
                match (
                    spp.content_1.spec_apply(arg, (depth - 1) as nat),
                    spp.content_2.spec_apply(arg, (depth - 1) as nat),
                ) {
                    (Some(u), Some(v)) => u.spec_apply(v, (depth - 1) as nat),
                    _ => None,
                }
            },
        }
    }

    /// `self` applied to `arg` reduces to `result`, at some depth.
    pub open spec fn reduces_to(self, arg: Ski, result: Ski) -> bool {
        exists|depth: nat| self.spec_apply(arg, depth) == Some(result)
    }

    /// A copy of the value, held arguments included.
    pub fn duplicate(&self) -> (r: Ski)
        ensures
            r == *self,
        decreases *self,
    {
        match self {
            Ski::S => Ski::S,
            Ski::K => Ski::K,
            Ski::I => Ski::I,
            Ski::Sp(sp) => Ski::Sp(SkiContainer1 { content: Box::new(sp.content.duplicate()) }),
            Ski::Kp(kp) => Ski::Kp(SkiContainer1 { content: Box::new(kp.content.duplicate()) }),
            Ski::Spp(spp) => Ski::Spp(
                SkiContainer2 {
                    content_1: Box::new(spp.content_1.duplicate()),
                    content_2: Box::new(spp.content_2.duplicate()),
                },
            ),
        }
    }

    /// Applies `self` to `arg`, as `apply` does, for callers that do not name the trait.
    pub fn apply_pub(&self, arg: Ski, depth: u64) -> (r: Option<Ski>)
        ensures
            r == self.spec_apply(arg, depth as nat),
    {
        self.apply(arg, depth)
    }
}

impl Apply for Ski {
    type Argument = Ski;

    type Target = Ski;

    /// Applies `self` to `arg` by the rules of the calculus. A saturated S reduces
    /// `S x y z` to `(x z) (y z)`, which may go on without end: the reduction is given
    /// up, with `None`, where it would nest deeper than `depth`.
    fn apply(&self, arg: Ski, depth: u64) -> (r: Option<Ski>)
        ensures
            r == self.spec_apply(arg, depth as nat),
        decreases depth,
    {
        match self {
            Ski::S => Some(Ski::Sp(SkiContainer1::from(arg))),
            Ski::K => Some(Ski::Kp(SkiContainer1::from(arg))),
            Ski::I => Some(arg),
            Ski::Sp(sp) => Some(Ski::Spp(SkiContainer2::from((sp.get(), arg)))),
            Ski::Kp(kp) => Some(kp.get()),
            Ski::Spp(spp) => {
                if depth == 0 {
                    return None;
                }
                let copy = arg.duplicate();
                let first = match spp.content_1.apply(copy, depth - 1) {
                    Some(u) => u,
                    None => {
                        return None;
                    },
                };
                let second = match spp.content_2.apply(arg, depth - 1) {
                    Some(v) => v,
                    None => {
                        return None;
                    },
                };
                first.apply(second, depth - 1)
            },
        }
    }
}

impl Eval for Ski {
    type Target = Ski;

    /// A value is its own value: nothing is left to reduce in it.
    fn eval(&self) -> (r: Ski)
        ensures
            r == *self,
    {
        self.duplicate()
    }
}

impl Lambda for Ski {

}

/// A reduction that succeeds within one depth succeeds within any greater depth, with the
/// same result.
pub proof fn lemma_apply_monotonic(f: Ski, x: Ski, low: nat, high: nat)
    requires
        low <= high,
        f.spec_apply(x, low) is Some,
    ensures
        f.spec_apply(x, high) == f.spec_apply(x, low),
    decreases low,
{
    match f {
        Ski::Spp(spp) => {
            let a = *spp.content_1;
            let b = *spp.content_2;
            let l = (low - 1) as nat;
            let h = (high - 1) as nat;
            lemma_apply_monotonic(a, x, l, h);
            lemma_apply_monotonic(b, x, l, h);
            lemma_apply_monotonic(a.spec_apply(x, l).unwrap(), b.spec_apply(x, l).unwrap(), l, h);
        },
        _ => {},
    }
}

/// An application reduces to at most one value.
pub proof fn lemma_reduces_to_unique(f: Ski, x: Ski, r1: Ski, r2: Ski)
    requires
        f.reduces_to(x, r1),
        f.reduces_to(x, r2),
    ensures
        r1 == r2,
{
    let d1 = choose|d: nat| f.spec_apply(x, d) == Some(r1);
    let d2 = choose|d: nat| f.spec_apply(x, d) == Some(r2);
    if d1 <= d2 {
        lemma_apply_monotonic(f, x, d1, d2);
    } else {
        lemma_apply_monotonic(f, x, d2, d1);
    }
}

/// `I x` is `x`.
pub proof fn lemma_identity(x: Ski, depth: nat)
    ensures
        Ski::I.spec_apply(x, depth) == Some(x),
        Ski::I.reduces_to(x, x),
{
    assert(Ski::I.spec_apply(x, 0) == Some(x));
}

/// `K x y` is `x`: the second argument is dropped.
pub proof fn lemma_constant(x: Ski, y: Ski, depth: nat)
    ensures
        Ski::K.spec_apply(x, depth) == Some(Ski::kp(x)),
        Ski::kp(x).spec_apply(y, depth) == Some(x),
        Ski::K.reduces_to(x, Ski::kp(x)),
        Ski::kp(x).reduces_to(y, x),
{
    assert(Ski::K.spec_apply(x, 0) == Some(Ski::kp(x)));
    assert(Ski::kp(x).spec_apply(y, 0) == Some(x));
}

/// `S x y z` is `(x z) (y z)`: S takes `x` and `y` as they are, and `S x y` applied to `z`
/// reduces to `w` exactly when `x z` and `y z` reduce to values whose application
/// reduces to `w`.
pub proof fn lemma_substitution(x: Ski, y: Ski, z: Ski, w: Ski, depth: nat)
    ensures
        Ski::S.spec_apply(x, depth) == Some(Ski::sp(x)),
        Ski::sp(x).spec_apply(y, depth) == Some(Ski::spp(x, y)),
        Ski::spp(x, y).spec_apply(z, depth + 1) == match (
            x.spec_apply(z, depth),
            y.spec_apply(z, depth),
        ) {
            (Some(u), Some(v)) => u.spec_apply(v, depth),
            _ => None,
        },
        Ski::spp(x, y).reduces_to(z, w) <==> exists|u: Ski, v: Ski|
            x.reduces_to(z, u) && y.reduces_to(z, v) && #[trigger] u.reduces_to(v, w),
{
    if Ski::spp(x, y).reduces_to(z, w) {
        let d = choose|d: nat| Ski::spp(x, y).spec_apply(z, d) == Some(w);
        let e = (d - 1) as nat;
        let u = x.spec_apply(z, e).unwrap();
        let v = y.spec_apply(z, e).unwrap();
        assert(u.spec_apply(v, e) == Some(w));
        assert(x.reduces_to(z, u) && y.reduces_to(z, v) && u.reduces_to(v, w));
    }
    if exists|u: Ski, v: Ski|
        x.reduces_to(z, u) && y.reduces_to(z, v) && #[trigger] u.reduces_to(v, w) {
        let (u, v) = choose|u: Ski, v: Ski|
            x.reduces_to(z, u) && y.reduces_to(z, v) && #[trigger] u.reduces_to(v, w);
        let d1 = choose|d: nat| x.spec_apply(z, d) == Some(u);
        let d2 = choose|d: nat| y.spec_apply(z, d) == Some(v);
        let d3 = choose|d: nat| u.spec_apply(v, d) == Some(w);
        let m: nat = if d1 >= d2 && d1 >= d3 {
            d1
        } else if d2 >= d3 {
            d2
        } else {
            d3
        };
        lemma_apply_monotonic(x, z, d1, m);
        lemma_apply_monotonic(y, z, d2, m);
        lemma_apply_monotonic(u, v, d3, m);
        assert(Ski::spp(x, y).spec_apply(z, m + 1) == Some(w));
    }
}

} // verus!
