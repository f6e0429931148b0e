use vstd::prelude::*;
use vstd::std_specs::convert::FromSpecImpl;
use crate::ast::{lemma_round_trip, Ast};
use crate::error::{FormulaError, InvalidError, LexiconError};
use crate::lambda::Apply;
use crate::sequence::{
    first_foreign_at, in_alphabet, is_valid_point, lemma_lexed, lexed, never_complete, symbols,
    well_formed, Sequence,
};
use crate::term::Ski;
use crate::token::Token;

verus! {

/// Where an evaluation stops: its result, and the program and the stack that it leaves.
/// The result is the prefix notation of the value, or `None` where a reduction was given
/// up at the depth limit, or the arity error that was met.
pub struct Halt {
    pub result: Result<Option<Seq<Token>>, FormulaError>,
    pub program: Seq<Token>,
    pub stack: Seq<Ski>,
}

/// The end of an evaluation whose program is used up: exactly one value must be left.
pub open spec fn finish(stack: Seq<Ski>) -> Halt {
    if stack.len() == 1 {
        Halt {
            result: Ok(Some(Ast::lower(stack[0]).tokens())),
            program: Seq::empty(),
            stack: Seq::empty(),
        }
    } else if stack.len() == 0 {
        Halt { result: Err(FormulaError::NotEnoughAtoms), program: Seq::empty(), stack }
    } else {
        Halt { result: Err(FormulaError::SurplusTokens), program: Seq::empty(), stack }
    }
}

/// The evaluation of `program` on `stack`. The program is read from its last token to
/// its first. A combinator is pushed. An application mark takes the top of the stack as
/// the function and the value below it as the argument, and pushes what the application
/// reduces to; both are taken and lost where there are not two values or the reduction
/// is given up.
pub open spec fn run(program: Seq<Token>, stack: Seq<Ski>, depth: nat) -> Halt
    decreases program.len(),
{
    if program.len() == 0 {
        finish(stack)
    } else {
        let rest = program.drop_last();
        match program.last() {
            Token::Atom(a) => run(rest, stack.push(Ski::lift(a)), depth),
            Token::Apply => if stack.len() < 2 {
                Halt {
                    result: Err(FormulaError::NotEnoughAtoms),
                    program: rest,
                    stack: Seq::empty(),
                }
            } else {
                let below = stack.take(stack.len() - 2);
                match stack[stack.len() - 1].spec_apply(stack[stack.len() - 2], depth) {
                    Some(v) => run(rest, below.push(v), depth),
                    None => Halt { result: Ok(None), program: rest, stack: below },
                }
            },
        }
    }
}

/// The evaluator: the tokens still to be read and the values found so far.
pub struct Stax {
    program: Sequence,
    stack: Vec<Ski>,
}

impl From<Sequence> for Stax {
    /// An evaluator that has `program` to read and an empty stack.
    fn from(program: Sequence) -> (r: Self)
        ensures
            r.program() == program@,
            r.stack() == Seq::<Ski>::empty(),
    {
        Stax { program, stack: Vec::new() }
    }
}

impl FromSpecImpl<Sequence> for Stax {
    open spec fn obeys_from_spec() -> bool {
        false
    }

    open spec fn from_spec(program: Sequence) -> Self {
        arbitrary()
    }
}

impl Stax {
    /// The tokens still to be read.
    pub closed spec fn program(&self) -> Seq<Token> {
        self.program@
    }

    /// The values found so far, the top last.
    pub closed spec fn stack(&self) -> Seq<Ski> {
        self.stack@
    }

    /// Runs the program to its end. `Ok(Some(..))` holds the value in prefix notation;
    /// `Ok(None)` says that a reduction was given up at `depth`.
    pub fn eval(&mut self, depth: u64) -> (r: Result<Option<Sequence>, FormulaError>)
        ensures
            match r {
                Ok(Some(seq)) => Ok::<Option<Seq<Token>>, FormulaError>(Some(seq@)),
                Ok(None) => Ok(None),
                Err(e) => Err(e),
            } == run(old(self).program(), old(self).stack(), depth as nat).result,
            final(self).program() == run(old(self).program(), old(self).stack(), depth as nat).program,
            final(self).stack() == run(old(self).program(), old(self).stack(), depth as nat).stack,
    {
        let ghost goal = run(self.program(), self.stack(), depth as nat);
        loop
            invariant
                goal == run(old(self).program(), old(self).stack(), depth as nat),
                run(self.program@, self.stack@, depth as nat) == goal,
            ensures
                self.program@.len() == 0,
                run(self.program@, self.stack@, depth as nat) == goal,
            decreases self.program@.len(),
        {
            let top = match self.program.pop() {
                Some(top) => top,
                None => {
                    break ;
                },
            };
            match top {
                Token::Atom(a) => {
                    self.stack.push(Ski::from(a));
                },
                Token::Apply => {
                    match self.apply(depth) {
                        Ok(Some(v)) => {
                            self.stack.push(v);
                        },
                        Ok(None) => {
                            return Ok(None);
                        },
                        Err(e) => {
                            return Err(e);
                        },
                    }
                },
            }
        }
        if self.stack.len() == 1 {
            match self.stack.pop() {
                Some(v) => Ok(Some(Sequence::from(Ast::from(v)))),
                None => Err(FormulaError::NotEnoughAtoms),
            }
        } else if self.stack.len() == 0 {
            Err(FormulaError::NotEnoughAtoms)
        } else {
            Err(FormulaError::SurplusTokens)
        }
    }

    /// Takes the function and the argument off the stack and applies the one to the
    /// other.
    fn apply(&mut self, depth: u64) -> (r: Result<Option<Ski>, FormulaError>)
        ensures
            final(self).program@ == old(self).program@,
            old(self).stack@.len() < 2 ==> r == Err::<Option<Ski>, FormulaError>(
                FormulaError::NotEnoughAtoms,
            ) && final(self).stack@ == Seq::<Ski>::empty(),
            old(self).stack@.len() >= 2 ==> final(self).stack@ == old(self).stack@.take(
                old(self).stack@.len() - 2,
            ) && r == Ok::<Option<Ski>, FormulaError>(
                old(self).stack@[old(self).stack@.len() - 1].spec_apply(
                    old(self).stack@[old(self).stack@.len() - 2],
                    depth as nat,
                ),
            ),
    {
        let function = match self.pop() {
            Ok(ski) => ski,
            Err(e) => {
                return Err(e);
            },
        };
        let argument = match self.pop() {
            Ok(ski) => ski,
            Err(e) => {
                return Err(e);
            },
        };
        Ok(function.apply(argument, depth))
    }

    /// Takes the top value off the stack.
    fn pop(&mut self) -> (r: Result<Ski, FormulaError>)
        ensures
            final(self).program@ == old(self).program@,
            old(self).stack@.len() == 0 ==> r == Err::<Ski, FormulaError>(
                FormulaError::NotEnoughAtoms,
            ) && final(self).stack@ == old(self).stack@,
            old(self).stack@.len() > 0 ==> r == Ok::<Ski, FormulaError>(old(self).stack@.last())
                && final(self).stack@ == old(self).stack@.drop_last(),
    {
        match self.stack.pop() {
            Some(ski) => Ok(ski),
            None => Err(FormulaError::NotEnoughAtoms),
        }
    }
}

/// The value of a formula: a combinator is itself, and an application is the value of
/// the function applied to the value of the argument, the argument being found first.
/// `None` where a reduction is given up at `depth`.
pub open spec fn value(ast: Ast, depth: nat) -> Option<Ski>
    decreases ast,
{
    match ast {
        Ast::Leaf(a) => Some(Ski::lift(a)),
        Ast::Apply(inner) => match value(*inner.argument, depth) {
            None => None,
            Some(x) => match value(*inner.function, depth) {
                None => None,
                Some(f) => f.spec_apply(x, depth),
            },
        },
    }
}

/// The tree whose prefix notation is `s`.
pub open spec fn tree_of(s: Seq<Token>) -> Ast {
    choose|ast: Ast| ast.tokens() == s
}

/// The text that a value is written as.
pub open spec fn written(v: Ski) -> Seq<char> {
    symbols(Ast::lower(v).tokens())
}

/// With a formula at the end of its program, the evaluator finds the value of the
/// formula and goes on with the value on the stack; it stops where the value is given
/// up.
pub proof fn lemma_run_formula(prefix: Seq<Token>, ast: Ast, stack: Seq<Ski>, depth: nat)
    ensures
        match value(ast, depth) {
            Some(v) => run(prefix + ast.tokens(), stack, depth) == run(
                prefix,
                stack.push(v),
                depth,
            ),
            None => run(prefix + ast.tokens(), stack, depth).result == Ok::<
                Option<Seq<Token>>,
                FormulaError,
            >(None),
        },
    decreases ast,
{
    let program = prefix + ast.tokens();
    match ast {
        Ast::Leaf(a) => {
            assert(program.drop_last() == prefix);
        },
        Ast::Apply(inner) => {
            let f = inner.function.tokens();
            let x = inner.argument.tokens();
            let mark = prefix.push(Token::Apply);
            assert(program == (mark + f) + x);
            lemma_run_formula(mark + f, *inner.argument, stack, depth);
            if let Some(vx) = value(*inner.argument, depth) {
                lemma_run_formula(mark, *inner.function, stack.push(vx), depth);
                if let Some(vf) = value(*inner.function, depth) {
                    let full = stack.push(vx).push(vf);
                    assert(mark.drop_last() == prefix);
                    assert(full.take(full.len() - 2) == stack);
                }
            }
        },
    }
}

/// Evaluating a formula gives its value, written in prefix notation, and no arity
/// error.
pub proof fn lemma_run_well_formed(s: Seq<Token>, depth: nat)
    requires
        well_formed(s),
    ensures
        tree_of(s).tokens() == s,
        run(s, Seq::empty(), depth).result == match value(tree_of(s), depth) {
            Some(v) => Ok::<Option<Seq<Token>>, FormulaError>(Some(Ast::lower(v).tokens())),
            None => Ok(None),
        },
{
    let ast = lemma_round_trip(s);
    let empty = Seq::<Token>::empty();
    assert(empty + s == s);
    lemma_run_formula(empty, tree_of(s), Seq::empty(), depth);
}

/// Reads a formula, finds its value and writes the value out. `Ok(None)` says that a
/// reduction was given up at `depth`.
pub fn evaluate(formula: &str, depth: u64) -> (r: Result<Option<String>, InvalidError>)
    ensures
        match r {
            Ok(out) => in_alphabet(formula@) && well_formed(lexed(formula@)) && match value(
                tree_of(lexed(formula@)),
                depth as nat,
            ) {
                Some(v) => out is Some && out.unwrap()@ == written(v),
                None => out is None,
            },
            Err(InvalidError::LexiconError(e)) => exists|i: int|
                first_foreign_at(formula@, i) && e == (LexiconError {
                    error_point: i as u32,
                    error_char: formula@[i],
                }),
            Err(InvalidError::FormulaError(FormulaError::NotEnoughAtoms)) => in_alphabet(formula@)
                && never_complete(lexed(formula@)),
            Err(InvalidError::FormulaError(FormulaError::SurplusTokens)) => in_alphabet(formula@)
                && exists|p: int|
                is_valid_point(lexed(formula@), p) && p + 1 < formula@.len(),
        },
{
    let seq = match Sequence::try_from(formula) {
        Ok(seq) => seq,
        Err(e) => {
            return Err(InvalidError::from(e));
        },
    };
    proof {
        lemma_lexed(formula@, seq@);
    }
    match seq.is_valid() {
        Ok(_) => {},
        Err(e) => {
            return Err(InvalidError::from(e));
        },
    }
    proof {
        lemma_run_well_formed(seq@, depth as nat);
    }
    let mut stax = Stax::from(seq);
    match stax.eval(depth) {
        Ok(Some(result)) => Ok(Some(result.to_string())),
        Ok(None) => Ok(None),
        Err(e) => Err(InvalidError::from(e)),
    }
}

} // verus!
