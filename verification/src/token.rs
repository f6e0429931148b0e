use vstd::prelude::*;
use vstd::std_specs::convert::FromSpecImpl;

verus! {

/// The three primitive combinators of the calculus.
#[derive(Debug, PartialEq, Eq, Structural, Hash, Clone, Copy)]
pub enum Atom {
    S,
    K,
    I,
}

/// A symbol of a formula in prefix notation: the application mark or a combinator.
#[derive(Debug, PartialEq, Eq, Structural, Hash, Clone, Copy)]
pub enum Token {
    Apply,
    Atom(Atom),
}

impl Atom {
    /// The character that stands for this combinator.
    pub open spec fn spec_symbol(self) -> char {
        match self {
            Atom::S => 's',
            Atom::K => 'k',
            Atom::I => 'i',
        }
    }

    /// The character that stands for this combinator.
    pub fn symbol(self) -> (c: char)
        ensures
            c == self.spec_symbol(),
    {
        match self {
            Atom::S => 's',
            Atom::K => 'k',
            Atom::I => 'i',
        }
    }
}

impl From<Atom> for Token {
    fn from(atom: Atom) -> (t: Self) {
        Token::Atom(atom)
    }
}

impl FromSpecImpl<Atom> for Token {
    open spec fn obeys_from_spec() -> bool {
        true
    }

    open spec fn from_spec(atom: Atom) -> Self {
        Token::Atom(atom)
    }
}

impl Token {
    /// How many operands the token takes: two for an application, none for a combinator.
    pub open spec fn arity(self) -> nat {
        match self {
            Token::Apply => 2,
            Token::Atom(_) => 0,
        }
    }

    /// The character that stands for this token.
    pub open spec fn spec_symbol(self) -> char {
        match self {
            Token::Apply => '`',
            Token::Atom(a) => a.spec_symbol(),
        }
    }

    /// The token that a character stands for, if it belongs to the alphabet.
    pub open spec fn spec_from_char(c: char) -> Option<Token> {
        if c == '`' {
            Some(Token::Apply)
        } else if c == 's' {
            Some(Token::Atom(Atom::S))
        } else if c == 'k' {
            Some(Token::Atom(Atom::K))
        } else if c == 'i' {
            Some(Token::Atom(Atom::I))
        } else {
            None
        }
    }

    /// The application mark.
    pub fn a() -> (t: Token)
        ensures
            t == Token::Apply,
    {
        Token::Apply
    }

    /// The combinator S as a token.
    pub fn s() -> (t: Token)
        ensures
            t == Token::Atom(Atom::S),
    {
        Token::Atom(Atom::S)
    }

    /// The combinator K as a token.
    pub fn k() -> (t: Token)
        ensures
            t == Token::Atom(Atom::K),
    {
        Token::Atom(Atom::K)
    }

    /// The combinator I as a token.
    pub fn i() -> (t: Token)
        ensures
            t == Token::Atom(Atom::I),
    {
        Token::Atom(Atom::I)
    }

    /// The character that stands for this token.
    pub fn symbol(self) -> (c: char)
        ensures
            c == self.spec_symbol(),
    {
        match self {
            Token::Apply => '`',
            Token::Atom(a) => a.symbol(),
        }
    }

    /// Reads one character of the alphabet; `None` for any other character.
    pub fn from_char(c: char) -> (t: Option<Token>)
        ensures
            t == Token::spec_from_char(c),
    {
        if c == '`' {
            Some(Token::Apply)
        } else if c == 's' {
            Some(Token::Atom(Atom::S))
        } else if c == 'k' {
            Some(Token::Atom(Atom::K))
        } else if c == 'i' {
            Some(Token::Atom(Atom::I))
        } else {
            None
        }
    }
}

/// Reading the character of a token gives the token back.
pub proof fn lemma_symbol_round_trip(t: Token)
    ensures
        Token::spec_from_char(t.spec_symbol()) == Some(t),
{
}

} // verus!
