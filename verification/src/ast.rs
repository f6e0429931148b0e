use vstd::prelude::*;
use vstd::std_specs::convert::FromSpecImpl;
use vstd::std_specs::convert::TryFromSpecImpl;
use crate::error::{FormulaError, InvalidError, LexiconError};
use crate::sequence::{
    first_foreign_at, in_alphabet, lemma_lexed, lexed, lexes_to,
    counter, is_valid_point, lemma_counter_behind_apply, lemma_counter_concat,
    lemma_counter_take_next, lemma_split_point, lemma_valid_point_unique, lemma_verdicts,
    never_complete, well_formed, Sequence,
};
use crate::term::Ski;
use crate::token::{Atom, Token};

verus! {

/// The two children of an application.
#[derive(Debug, PartialEq, Eq, Hash)]
pub struct AstInner {
    pub function: Box<Ast>,
    pub argument: Box<Ast>,
}

/// A formula as a tree: a combinator, or one formula applied to another.
#[derive(Debug, PartialEq, Eq, Hash)]
pub enum Ast {
    Leaf(Atom),
    Apply(AstInner),
}

impl Clone for AstInner {
    fn clone(&self) -> (r: Self)
        ensures
            r == *self,
    {
        AstInner {
            function: Box::new(self.function.duplicate()),
            argument: Box::new(self.argument.duplicate()),
        }
    }
}

impl Clone for Ast {
    fn clone(&self) -> (r: Self)
        ensures
            r == *self,
    {
        self.duplicate()
    }
}

impl AstInner {
    /// A copy of the formula that is applied.
    pub fn to_function(&self) -> (r: Ast)
        ensures
            r == *self.function,
    {
        self.function.duplicate()
    }

    /// A copy of the formula that it is applied to.
    pub fn to_argument(&self) -> (r: Ast)
        ensures
            r == *self.argument,
    {
        self.argument.duplicate()
    }

    /// The formula that is applied.
    pub fn into_function(self) -> (r: Ast)
        ensures
            r == *self.function,
    {
        *self.function
    }

    /// The formula that it is applied to.
    pub fn into_argument(self) -> (r: Ast)
        ensures
            r == *self.argument,
    {
        *self.argument
    }
}

impl Ast {
    /// The application of `function` to `argument`.
    pub open spec fn node(function: Ast, argument: Ast) -> Ast {
        Ast::Apply(AstInner { function: Box::new(function), argument: Box::new(argument) })
    }

    /// The formula in prefix notation: the node's own token, then the function, then the
    /// argument.
    pub open spec fn tokens(self) -> Seq<Token>
        decreases self,
    {
        match self {
            Ast::Leaf(a) => seq![Token::Atom(a)],
            Ast::Apply(inner) => seq![Token::Apply] + inner.function.tokens()
                + inner.argument.tokens(),
        }
    }

    /// The formula that writes a value out: a combinator applied to the arguments that it
    /// holds.
    pub open spec fn lower(ski: Ski) -> Ast
        decreases ski,
    {
        match ski {
            Ski::S => Ast::Leaf(Atom::S),
            Ski::K => Ast::Leaf(Atom::K),
            Ski::I => Ast::Leaf(Atom::I),
            Ski::Sp(sp) => Ast::node(Ast::Leaf(Atom::S), Ast::lower(*sp.content)),
            Ski::Kp(kp) => Ast::node(Ast::Leaf(Atom::K), Ast::lower(*kp.content)),
            Ski::Spp(spp) => Ast::node(
                Ast::node(Ast::Leaf(Atom::S), Ast::lower(*spp.content_1)),
                Ast::lower(*spp.content_2),
            ),
        }
    }

    /// A copy of the tree.
    pub fn duplicate(&self) -> (r: Ast)
        ensures
            r == *self,
        decreases *self,
    {
        match self {
            Ast::Leaf(a) => Ast::Leaf(*a),
            Ast::Apply(inner) => Ast::Apply(
                AstInner {
                    function: Box::new(inner.function.duplicate()),
                    argument: Box::new(inner.argument.duplicate()),
                },
            ),
        }
    }
}

impl From<Ski> for Ast {
    fn from(ski: Ski) -> (r: Self)
        decreases ski,
    {
        match ski {
            Ski::S => Ast::Leaf(Atom::S),
            Ski::K => Ast::Leaf(Atom::K),
            Ski::I => Ast::Leaf(Atom::I),
            Ski::Sp(sp) => Ast::Apply(
                AstInner {
                    function: Box::new(Ast::Leaf(Atom::S)),
                    argument: Box::new(Ast::from(*sp.content)),
                },
            ),
            Ski::Kp(kp) => Ast::Apply(
                AstInner {
                    function: Box::new(Ast::Leaf(Atom::K)),
                    argument: Box::new(Ast::from(*kp.content)),
                },
            ),
            Ski::Spp(spp) => Ast::Apply(
                AstInner {
                    function: Box::new(
                        Ast::Apply(
                            AstInner {
                                function: Box::new(Ast::Leaf(Atom::S)),
                                argument: Box::new(Ast::from(*spp.content_1)),
                            },
                        ),
                    ),
                    argument: Box::new(Ast::from(*spp.content_2)),
                },
            ),
        }
    }
}

impl FromSpecImpl<Ski> for Ast {
    open spec fn obeys_from_spec() -> bool {
        true
    }

    open spec fn from_spec(ski: Ski) -> Self {
        Ast::lower(ski)
    }
}

impl TryFrom<Sequence> for Ast {
    type Error = FormulaError;

    /// Builds the tree of a sequence that is exactly one formula; any other sequence is
    /// refused with the verdict on it.
    fn try_from(seq: Sequence) -> (r: Result<Self, FormulaError>)
        ensures
            r is Ok <==> well_formed(seq@),
            r is Ok ==> r.unwrap().tokens() == seq@,
            r == Err::<Ast, FormulaError>(FormulaError::NotEnoughAtoms) <==> never_complete(seq@),
            r == Err::<Ast, FormulaError>(FormulaError::SurplusTokens) <==> exists|p: int|
                is_valid_point(seq@, p) && p + 1 < seq@.len(),
        decreases seq@.len(),
    {
        let ghost s = seq@;
        proof {
            lemma_verdicts(s);
        }
        let mut seq = seq;
        match seq.is_valid() {
            Ok(_) => {},
            Err(e) => {
                return Err(e);
            },
        }
        proof {
            lemma_counter_take_next(s, s.len() - 1);
        }
        match seq.dequeue() {
            None => Err(FormulaError::NotEnoughAtoms),
            Some(Token::Atom(atom)) => {
                proof {
                    lemma_counter_take_next(s, 0);
                    assert(s.take(0).len() == 0);
                    if s.len() > 1 {
                        assert(counter(s.take(1)) > 0);
                    }
                    assert(s == seq![Token::Atom(atom)]);
                }
                Ok(Ast::Leaf(atom))
            },
            Some(Token::Apply) => {
                let ghost p = lemma_split_point(s);
                let rest_len = seq.len();
                let point = match seq.valid_point() {
                    Ok(point) => point,
                    Err(e) => {
                        proof {
                            lemma_verdicts(s.skip(1));
                        }
                        return Err(e);
                    },
                };
                assert(point < rest_len);
                let (function, argument) = seq.split(point + 1);
                proof {
                    lemma_verdicts(function@);
                    lemma_verdicts(argument@);
                }
                let function = match Ast::try_from(function) {
                    Ok(ast) => ast,
                    Err(e) => {
                        return Err(e);
                    },
                };
                let argument = match Ast::try_from(argument) {
                    Ok(ast) => ast,
                    Err(e) => {
                        return Err(e);
                    },
                };
                proof {
                    assert(s == seq![Token::Apply] + s.skip(1));
                }
                Ok(Ast::Apply(AstInner { function: Box::new(function), argument: Box::new(argument) }))
            },
        }
    }
}

impl TryFromSpecImpl<Sequence> for Ast {
    open spec fn obeys_try_from_spec() -> bool {
        false
    }

    open spec fn try_from_spec(seq: Sequence) -> Result<Self, FormulaError> {
        arbitrary()
    }
}

impl TryFrom<&str> for Ast {
    type Error = InvalidError;

    /// Reads a text as one formula. A character outside the alphabet is met before
    /// anything is said of the formula.
    fn try_from(str: &str) -> (r: Result<Self, InvalidError>)
        ensures
            match r {
                Ok(ast) => lexes_to(str@, ast.tokens()),
                Err(InvalidError::LexiconError(e)) => exists|i: int|
                    first_foreign_at(str@, i) && e == (LexiconError {
                        error_point: i as u32,
                        error_char: str@[i],
                    }),
                Err(InvalidError::FormulaError(FormulaError::NotEnoughAtoms)) => in_alphabet(str@)
                    && never_complete(lexed(str@)),
                Err(InvalidError::FormulaError(FormulaError::SurplusTokens)) => in_alphabet(str@)
                    && exists|p: int|
                    is_valid_point(lexed(str@), p) && p + 1 < str@.len(),
            },
    {
        match Sequence::try_from(str) {
            Ok(seq) => {
                proof {
                    lemma_lexed(str@, seq@);
                }
                match Ast::try_from(seq) {
                    Ok(ast) => Ok(ast),
                    Err(e) => Err(InvalidError::from(e)),
                }
            },
            Err(e) => Err(InvalidError::from(e)),
        }
    }
}

impl TryFromSpecImpl<&str> for Ast {
    open spec fn obeys_try_from_spec() -> bool {
        false
    }

    open spec fn try_from_spec(str: &str) -> Result<Self, InvalidError> {
        arbitrary()
    }
}

/// A formula in front of other tokens ends at its own last token.
pub proof fn lemma_valid_point_of_prefix(f: Seq<Token>, x: Seq<Token>)
    requires
        well_formed(f),
    ensures
        is_valid_point(f + x, f.len() - 1),
{
    let s = f + x;
    assert(s.take(f.len() - 1 + 1) == f.take(f.len() - 1 + 1));
    assert forall|j: int| 0 <= j <= f.len() - 1 implies counter(#[trigger] s.take(j)) > 0 by {
        assert(s.take(j) == f.take(j));
    }
}

/// One formula applied to another, written in prefix notation, is one formula.
pub proof fn lemma_application_well_formed(f: Seq<Token>, x: Seq<Token>)
    requires
        well_formed(f),
        well_formed(x),
    ensures
        well_formed(seq![Token::Apply] + f + x),
{
    let head = seq![Token::Apply] + f;
    let s = head + x;
    let n = s.len() as int;
    assert(s[0] == Token::Apply);
    assert(s.skip(1) == f + x);
    lemma_valid_point_of_prefix(f, x);
    assert(s.take(0).len() == 0);
    assert(counter(f.take(f.len() as int)) == 0) by {
        assert(f.take(f.len() - 1 + 1) == f.take(f.len() as int));
    }
    assert(counter(x.take(x.len() as int)) == 0) by {
        assert(x.take(x.len() - 1 + 1) == x.take(x.len() as int));
    }
    assert forall|j: int| 1 <= j <= n implies (j < n ==> counter(#[trigger] s.take(j)) > 0) && (j
        == n ==> counter(s.take(j)) == 0) by {
        lemma_counter_behind_apply(s, j - 1);
        if j - 1 <= f.len() {
            assert(s.skip(1).take(j - 1) == f.take(j - 1));
        } else {
            let k = j - 1 - f.len();
            assert(s.skip(1).take(j - 1) == f + x.take(k));
            assert(f.take(f.len() as int) == f);
            lemma_counter_concat(f, x.take(k));
        }
    }
    assert(s.take(n - 1 + 1) == s.take(n));
}

/// The prefix notation of a tree is one formula.
pub proof fn lemma_tokens_well_formed(ast: Ast)
    ensures
        well_formed(ast.tokens()),
    decreases ast,
{
    match ast {
        Ast::Leaf(a) => {
            let s = ast.tokens();
            assert(s.take(0).len() == 0);
            lemma_counter_take_next(s, 0);
        },
        Ast::Apply(inner) => {
            lemma_tokens_well_formed(*inner.function);
            lemma_tokens_well_formed(*inner.argument);
            lemma_application_well_formed(inner.function.tokens(), inner.argument.tokens());
        },
    }
}

/// Two trees with the same prefix notation are the same tree.
pub proof fn lemma_tokens_injective(a: Ast, b: Ast)
    requires
        a.tokens() == b.tokens(),
    ensures
        a == b,
    decreases a,
{
    lemma_tokens_well_formed(a);
    lemma_tokens_well_formed(b);
    match (a, b) {
        (Ast::Leaf(x), Ast::Leaf(y)) => {
            assert(a.tokens()[0] == b.tokens()[0]);
        },
        (Ast::Apply(m), Ast::Apply(n)) => {
            let f1 = m.function.tokens();
            let x1 = m.argument.tokens();
            let f2 = n.function.tokens();
            let x2 = n.argument.tokens();
            lemma_tokens_well_formed(*m.function);
            lemma_tokens_well_formed(*n.function);
            assert(f1 + x1 == a.tokens().skip(1));
            assert(f2 + x2 == b.tokens().skip(1));
            lemma_valid_point_of_prefix(f1, x1);
            lemma_valid_point_of_prefix(f2, x2);
            lemma_valid_point_unique(f1 + x1, f1.len() - 1, f2.len() - 1);
            assert(f1 == (f1 + x1).take(f1.len() as int));
            assert(f2 == (f2 + x2).take(f2.len() as int));
            assert(x1 == (f1 + x1).skip(f1.len() as int));
            assert(x2 == (f2 + x2).skip(f2.len() as int));
            lemma_tokens_injective(*m.function, *n.function);
            lemma_tokens_injective(*m.argument, *n.argument);
        },
        (Ast::Leaf(x), Ast::Apply(n)) => {
            assert(a.tokens()[0] == b.tokens()[0]);
        },
        (Ast::Apply(m), Ast::Leaf(y)) => {
            assert(a.tokens()[0] == b.tokens()[0]);
        },
    }
}

/// Every sequence that is one formula is the prefix notation of exactly one tree:
/// writing out the tree that was read from such a sequence gives the sequence back.
pub proof fn lemma_round_trip(s: Seq<Token>) -> (ast: Ast)
    requires
        well_formed(s),
    ensures
        ast.tokens() == s,
        forall|other: Ast| other.tokens() == s ==> other == ast,
    decreases s.len(),
{
    lemma_counter_take_next(s, s.len() - 1);
    let ast = match s[0] {
        Token::Atom(a) => {
            lemma_counter_take_next(s, 0);
            assert(s.take(0).len() == 0);
            if s.len() > 1 {
                assert(counter(s.take(1)) > 0);
            }
            assert(s == seq![Token::Atom(a)]);
            Ast::Leaf(a)
        },
        Token::Apply => {
            let p = lemma_split_point(s);
            let function = lemma_round_trip(s.skip(1).take(p + 1));
            let argument = lemma_round_trip(s.skip(1).skip(p + 1));
            assert(s == seq![Token::Apply] + s.skip(1));
            Ast::node(function, argument)
        },
    };
    assert(ast.tokens() == s);
    assert forall|other: Ast| other.tokens() == s implies other == ast by {
        lemma_tokens_injective(other, ast);
    }
    ast
}

} // verus!
