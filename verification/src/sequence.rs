use std::collections::vec_deque::Iter;
use std::collections::VecDeque;
use std::ops::Add;
use vstd::prelude::*;
use vstd::std_specs::convert::FromSpecImpl;
use vstd::std_specs::convert::TryFromSpecImpl;
use vstd::std_specs::iter::IteratorSpec;
use vstd::std_specs::ops::AddSpecImpl;
use vstd::string::StrSliceExecFns;
use vstd::string::StringExecFns;
use crate::ast::{Ast, AstInner};
use crate::error::{FormulaError, LexiconError};
use crate::token::{Atom, Token};

verus! {

/// What a token adds to the count of operands still owed: an application owes two and
/// delivers one, a combinator delivers one.
pub open spec fn step(t: Token) -> int {
    t.arity() - 1
}

/// The number of operands still owed after `s`, when one formula is expected.
pub open spec fn counter(s: Seq<Token>) -> int
    decreases s.len(),
{
    if s.len() == 0 {
        1
    } else {
        counter(s.drop_last()) + step(s.last())
    }
}

/// `p` is the index of the token at which the count of `s` first reaches zero: the
/// tokens up to and including `p` are the first complete formula of `s`.
pub open spec fn is_valid_point(s: Seq<Token>, p: int) -> bool {
    &&& 0 <= p < s.len()
    &&& counter(s.take(p + 1)) == 0
    &&& forall|j: int| 0 <= j <= p ==> counter(#[trigger] s.take(j)) > 0
}

/// The count never reaches zero, whatever prefix of `s` is scanned.
pub open spec fn never_complete(s: Seq<Token>) -> bool {
    forall|j: int| 0 <= j <= s.len() ==> counter(#[trigger] s.take(j)) > 0
}

/// `s` is exactly one formula: the count reaches zero at its last token and not before.
pub open spec fn well_formed(s: Seq<Token>) -> bool {
    is_valid_point(s, s.len() - 1)
}

/// Every character of `text` belongs to the alphabet and `tokens` holds what they stand
/// for, in order.
pub open spec fn lexes_to(text: Seq<char>, tokens: Seq<Token>) -> bool {
    &&& tokens.len() == text.len()
    &&& forall|i: int|
        0 <= i < text.len() ==> Token::spec_from_char(#[trigger] text[i]) == Some(tokens[i])
}

/// The tokens that the characters of `text` stand for, where all belong to the alphabet.
pub open spec fn lexed(text: Seq<char>) -> Seq<Token> {
    text.map_values(|c: char| Token::spec_from_char(c).unwrap())
}

/// Every character of `text` belongs to the alphabet.
pub open spec fn in_alphabet(text: Seq<char>) -> bool {
    forall|i: int| 0 <= i < text.len() ==> Token::spec_from_char(#[trigger] text[i]) is Some
}

/// The character at `i` is the first of `text` that is outside the alphabet.
pub open spec fn first_foreign_at(text: Seq<char>, i: int) -> bool {
    &&& 0 <= i < text.len()
    &&& Token::spec_from_char(text[i]) is None
    &&& forall|j: int| 0 <= j < i ==> Token::spec_from_char(#[trigger] text[j]) is Some
}

/// The text that a token sequence is written as.
pub open spec fn symbols(tokens: Seq<Token>) -> Seq<char> {
    tokens.map_values(|t: Token| t.spec_symbol())
}

/// An ordered list of tokens: a formula, or a piece of one.
#[derive(Debug, PartialEq, Eq, Hash)]
pub struct Sequence(VecDeque<Token>);

impl View for Sequence {
    type V = Seq<Token>;

    closed spec fn view(&self) -> Seq<Token> {
        self.0@
    }
}

impl Clone for Sequence {
    fn clone(&self) -> (r: Self)
        ensures
            r@ == self@,
    {
        let mut r = Sequence::new();
        r.join(self);
        r
    }
}

impl From<Token> for Sequence {
    /// The sequence of one token.
    fn from(token: Token) -> (r: Self)
        ensures
            r@ == seq![token],
    {
        let mut inner = VecDeque::new();
        inner.push_back(token);
        Sequence(inner)
    }
}

impl FromSpecImpl<Token> for Sequence {
    open spec fn obeys_from_spec() -> bool {
        false
    }

    open spec fn from_spec(token: Token) -> Self {
        arbitrary()
    }
}

impl From<VecDeque<Token>> for Sequence {
    /// The sequence that holds the tokens of `inner`, front first.
    fn from(inner: VecDeque<Token>) -> (r: Self)
        ensures
            r@ == inner@,
    {
        Sequence(inner)
    }
}

impl FromSpecImpl<VecDeque<Token>> for Sequence {
    open spec fn obeys_from_spec() -> bool {
        false
    }

    open spec fn from_spec(inner: VecDeque<Token>) -> Self {
        arbitrary()
    }
}

impl From<Vec<Token>> for Sequence {
    /// The sequence that holds the tokens of `vec`, in order.
    fn from(vec: Vec<Token>) -> (r: Self)
        ensures
            r@ == vec@,
    {
        let mut inner = VecDeque::new();
        let n = vec.len();
        let mut i: usize = 0;
        while i < n
            invariant
                n == vec@.len(),
                i <= n,
                inner@ == vec@.take(i as int),
            decreases n - i,
        {
            inner.push_back(vec[i]);
            i += 1;
            assert(vec@.take(i as int) == vec@.take(i - 1).push(vec@[i - 1]));
        }
        assert(vec@.take(n as int) == vec@);
        Sequence(inner)
    }
}

impl FromSpecImpl<Vec<Token>> for Sequence {
    open spec fn obeys_from_spec() -> bool {
        false
    }

    open spec fn from_spec(vec: Vec<Token>) -> Self {
        arbitrary()
    }
}

impl From<Ast> for Sequence {
    /// Writes a tree out in prefix notation.
    fn from(ast: Ast) -> (r: Self)
        ensures
            r@ == ast.tokens(),
        decreases ast,
    {
        match ast {
            Ast::Leaf(leaf) => Sequence::from(Token::from(leaf)),
            Ast::Apply(child) => {
                let AstInner { function, argument } = child;
                Sequence::from(Token::a()) + Sequence::from(*function) + Sequence::from(*argument)
            },
        }
    }
}

impl FromSpecImpl<Ast> for Sequence {
    open spec fn obeys_from_spec() -> bool {
        false
    }

    open spec fn from_spec(ast: Ast) -> Self {
        arbitrary()
    }
}

impl TryFrom<&str> for Sequence {
    type Error = LexiconError;

    /// Reads a text character by character; stops at the first one outside the alphabet.
    fn try_from(s: &str) -> (r: Result<Self, LexiconError>)
        ensures
            match r {
                Ok(seq) => lexes_to(s@, seq@),
                Err(e) => exists|i: int|
                    first_foreign_at(s@, i) && e == (LexiconError {
                        error_point: i as u32,
                        error_char: s@[i],
                    }),
            },
    {
        let mut inner: VecDeque<Token> = VecDeque::new();
        let n = s.unicode_len();
        let mut i: usize = 0;
        while i < n
            invariant
                n == s@.len(),
                i <= n,
                lexes_to(s@.take(i as int), inner@),
            decreases n - i,
        {
            let c = s.get_char(i);
            match Token::from_char(c) {
                Some(t) => {
                    inner.push_back(t);
                },
                None => {
                    assert forall|j: int| 0 <= j < i implies Token::spec_from_char(
                        #[trigger] s@[j],
                    ) is Some by {
                        assert(s@.take(i as int)[j] == s@[j]);
                    }
                    assert(first_foreign_at(s@, i as int));
                    return Err(LexiconError::new(#[verifier::truncate] (i as u32), c));
                },
            }
            i += 1;
        }
        assert(s@.take(n as int) == s@);
        Ok(Sequence(inner))
    }
}

impl TryFromSpecImpl<&str> for Sequence {
    open spec fn obeys_try_from_spec() -> bool {
        false
    }

    open spec fn try_from_spec(s: &str) -> Result<Self, LexiconError> {
        arbitrary()
    }
}

impl Add for Sequence {
    type Output = Self;

    /// The tokens of `self` followed by those of `arg`.
    fn add(self, arg: Self) -> (r: Self)
        ensures
            r@ == self@ + arg@,
    {
        let mut r = self;
        r.join(&arg);
        r
    }
}

impl AddSpecImpl for Sequence {
    open spec fn obeys_add_spec() -> bool {
        false
    }

    open spec fn add_req(self, arg: Self) -> bool {
        true
    }

    open spec fn add_spec(self, arg: Self) -> Self {
        arbitrary()
    }
}

impl<'a> IntoIterator for &'a Sequence {
    type Item = &'a Token;

    type IntoIter = Iter<'a, Token>;

    /// Walks the tokens from the first to the last.
    fn into_iter(self) -> (iter: Iter<'a, Token>)
        ensures
            iter.remaining() == self@.as_ref(),
    {
        proof {
            broadcast use vstd::std_specs::vecdeque::axiom_spec_iter;

        }
        self.0.iter()
    }
}

impl Sequence {
    /// The empty sequence.
    pub fn new() -> (r: Self)
        ensures
            r@ == Seq::<Token>::empty(),
    {
        Sequence(VecDeque::new())
    }

    pub fn len(&self) -> (n: usize)
        ensures
            n == self@.len(),
    {
        self.0.len()
    }

    /// Removes and returns the last token.
    pub fn pop(&mut self) -> (t: Option<Token>)
        ensures
            old(self)@.len() == 0 ==> t is None && final(self)@ == old(self)@,
            old(self)@.len() > 0 ==> t == Some(old(self)@.last()) && final(self)@ == old(
                self,
            )@.drop_last(),
    {
        self.0.pop_back()
    }

    /// Removes and returns the first token.
    pub fn dequeue(&mut self) -> (t: Option<Token>)
        ensures
            old(self)@.len() == 0 ==> t is None && final(self)@ == old(self)@,
            old(self)@.len() > 0 ==> t == Some(old(self)@.first()) && final(self)@ == old(
                self,
            )@.skip(1),
    {
        self.0.pop_front()
    }

    /// Divides the sequence before the token at `index`.
    pub fn split(self, index: usize) -> (r: (Sequence, Sequence))
        requires
            index <= self@.len(),
        ensures
            r.0@ == self@.take(index as int),
            r.1@ == self@.skip(index as int),
    {
        let mut head = self;
        let tail = head.0.split_off(index);
        (head, Sequence(tail))
    }

    /// Appends the tokens of `seq`, in order.
    pub fn join(&mut self, seq: &Self)
        ensures
            final(self)@ == old(self)@ + seq@,
    {
        let n = seq.0.len();
        let mut i: usize = 0;
        while i < n
            invariant
                n == seq@.len(),
                i <= n,
                self@ == old(self)@ + seq@.take(i as int),
            decreases n - i,
        {
            self.0.push_back(seq.0[i]);
            i += 1;
            assert(seq@.take(i as int) == seq@.take(i - 1).push(seq@[i - 1]));
        }
        assert(seq@.take(n as int) == seq@);
    }

    /// Writes the sequence out, one character for each token.
    pub fn to_string(&self) -> (r: String)
        ensures
            r@ == symbols(self@),
    {
        let mut r = String::new();
        let n = self.0.len();
        let mut i: usize = 0;
        proof {
            reveal_strlit("`");
            reveal_strlit("s");
            reveal_strlit("k");
            reveal_strlit("i");
        }
        while i < n
            invariant
                n == self@.len(),
                i <= n,
                r@ == symbols(self@.take(i as int)),
                "`"@ == seq!['`'],
                "s"@ == seq!['s'],
                "k"@ == seq!['k'],
                "i"@ == seq!['i'],
            decreases n - i,
        {
            match self.0[i] {
                Token::Apply => r.append("`"),
                Token::Atom(Atom::S) => r.append("s"),
                Token::Atom(Atom::K) => r.append("k"),
                Token::Atom(Atom::I) => r.append("i"),
            }
            i += 1;
            assert(self@.take(i as int) == self@.take(i - 1).push(self@[i - 1]));
            assert(r@ == symbols(self@.take(i as int)));
        }
        assert(self@.take(n as int) == self@);
        r
    }

    /// Finds where the first complete formula of the sequence ends.
    pub fn valid_point(&self) -> (r: Result<usize, FormulaError>)
        ensures
            match r {
                Ok(p) => is_valid_point(self@, p as int),
                Err(e) => e == FormulaError::NotEnoughAtoms && never_complete(self@),
            },
            r is Ok <==> exists|p: int| is_valid_point(self@, p),
    {
        let n = self.0.len();
        let mut count: u128 = 1;
        let mut i: usize = 0;
        proof {
            assert(self@.take(0).len() == 0);
        }
        while i < n
            invariant
                n == self@.len(),
                i <= n,
                count == counter(self@.take(i as int)),
                count <= i + 1,
                forall|j: int| 0 <= j <= i ==> counter(#[trigger] self@.take(j)) > 0,
            decreases n - i,
        {
            proof {
                lemma_counter_take_next(self@, i as int);
            }
            match self.0[i] {
                Token::Apply => {
                    count = count + 1;
                },
                Token::Atom(_) => {
                    count = count - 1;
                },
            }
            if count == 0 {
                assert(is_valid_point(self@, i as int));
                return Ok(i);
            }
            i += 1;
        }
        proof {
            lemma_verdicts(self@);
        }
        Err(FormulaError::NotEnoughAtoms)
    }

    /// Tells whether the sequence is exactly one formula, and if not, what is wrong.
    pub fn is_valid(&self) -> (r: Result<bool, FormulaError>)
        ensures
            r is Ok <==> well_formed(self@),
            r is Ok ==> r.unwrap(),
            r == Err::<bool, FormulaError>(FormulaError::NotEnoughAtoms) <==> never_complete(
                self@,
            ),
            r == Err::<bool, FormulaError>(FormulaError::SurplusTokens) <==> exists|p: int|
                is_valid_point(self@, p) && p + 1 < self@.len(),
    {
        proof {
            lemma_verdicts(self@);
        }
        match self.valid_point() {
            Ok(p) => {
                if p == self.0.len() - 1 {
                    Ok(true)
                } else {
                    Err(FormulaError::SurplusTokens)
                }
            },
            Err(e) => Err(e),
        }
    }

    /// Keeps the tokens before the last one of the first complete formula.
    pub fn cut_formula(self) -> (r: Result<Self, FormulaError>)
        ensures
            match r {
                Ok(head) => exists|p: int|
                    is_valid_point(self@, p) && head@ == self@.take(p),
                Err(e) => e == FormulaError::NotEnoughAtoms && never_complete(self@),
            },
    {
        match self.valid_point() {
            Ok(point) => {
                let (head, _) = self.split(point);
                Ok(head)
            },
            Err(e) => Err(e),
        }
    }

    /// Divides the sequence before the last token of its first complete formula.
    pub fn formula_and_rest(self) -> (r: Result<(Self, Self), FormulaError>)
        ensures
            match r {
                Ok(parts) => exists|p: int|
                    is_valid_point(self@, p) && parts.0@ == self@.take(p) && parts.1@
                        == self@.skip(p),
                Err(e) => e == FormulaError::NotEnoughAtoms && never_complete(self@),
            },
    {
        match self.valid_point() {
            Ok(point) => {
                let parts = self.split(point);
                Ok(parts)
            },
            Err(e) => Err(e),
        }
    }
}

/// Scanning one token more changes the count by that token's step.
pub proof fn lemma_counter_take_next(s: Seq<Token>, i: int)
    requires
        0 <= i < s.len(),
    ensures
        counter(s.take(i + 1)) == counter(s.take(i)) + step(s[i]),
{
    assert(s.take(i + 1).drop_last() == s.take(i));
}

/// The count of two pieces scanned one after the other.
pub proof fn lemma_counter_concat(a: Seq<Token>, b: Seq<Token>)
    ensures
        counter(a + b) == counter(a) + counter(b) - 1,
    decreases b.len(),
{
    if b.len() == 0 {
        assert(a + b == a);
    } else {
        lemma_counter_concat(a, b.drop_last());
        assert((a + b).drop_last() == a + b.drop_last());
    }
}

/// A sequence has at most one valid point.
pub proof fn lemma_valid_point_unique(s: Seq<Token>, p: int, q: int)
    requires
        is_valid_point(s, p),
        is_valid_point(s, q),
    ensures
        p == q,
{
    if p < q {
        assert(counter(s.take(p + 1)) > 0);
    }
    if q < p {
        assert(counter(s.take(q + 1)) > 0);
    }
}

/// The three verdicts on a sequence exclude one another, and one of them holds: it is
/// one formula, or its count never reaches zero, or it reaches zero before the end.
pub proof fn lemma_verdicts(s: Seq<Token>)
    ensures
        well_formed(s) ==> !never_complete(s),
        well_formed(s) ==> !exists|p: int| is_valid_point(s, p) && p + 1 < s.len(),
        never_complete(s) ==> !exists|p: int| is_valid_point(s, p),
        well_formed(s) || never_complete(s) || exists|p: int|
            is_valid_point(s, p) && p + 1 < s.len(),
{
    if well_formed(s) {
        assert(s.take(s.len() - 1 + 1) == s.take(s.len() as int));
        if exists|p: int| is_valid_point(s, p) && p + 1 < s.len() {
            let p = choose|p: int| is_valid_point(s, p) && p + 1 < s.len();
            lemma_valid_point_unique(s, p, s.len() - 1);
        }
    }
    if never_complete(s) {
        if exists|p: int| is_valid_point(s, p) {
            let p = choose|p: int| is_valid_point(s, p);
            assert(counter(s.take(p + 1)) > 0);
        }
    }
    if !never_complete(s) {
        lemma_first_zero(s, s.len() as int);
    }
}

/// A sequence is one formula exactly when its count ends at zero and is zero after no
/// shorter prefix.
pub proof fn lemma_well_formed_by_count(s: Seq<Token>)
    ensures
        well_formed(s) <==> counter(s) == 0 && forall|j: int|
            0 <= j < s.len() ==> counter(#[trigger] s.take(j)) != 0,
{
    let n = s.len() as int;
    assert(s.take(n) == s);
    if well_formed(s) {
        assert(s.take(n - 1 + 1) == s.take(n));
    }
    if counter(s) == 0 && forall|j: int| 0 <= j < n ==> counter(#[trigger] s.take(j)) != 0 {
        assert(s.take(n - 1 + 1) == s.take(n));
        assert forall|j: int| 0 <= j <= n - 1 implies counter(#[trigger] s.take(j)) > 0 by {
            if counter(s.take(j)) <= 0 {
                lemma_first_zero(s, j);
                let p = choose|p: int| is_valid_point(s, p) && p < j;
                assert(counter(s.take(p + 1)) != 0);
            }
        }
    }
}

/// If the count is not positive after some prefix of at most `n` tokens, the sequence has
/// a valid point before `n`.
pub proof fn lemma_first_zero(s: Seq<Token>, n: int)
    requires
        0 <= n <= s.len(),
        exists|j: int| 0 <= j <= n && counter(#[trigger] s.take(j)) <= 0,
    ensures
        exists|p: int| is_valid_point(s, p) && p < n,
    decreases n,
{
    assert(s.take(0).len() == 0);
    if exists|j: int| 0 <= j <= n - 1 && counter(#[trigger] s.take(j)) <= 0 {
        lemma_first_zero(s, n - 1);
    } else {
        lemma_counter_take_next(s, n - 1);
        assert(counter(s.take(n - 1)) > 0);
        assert(counter(s.take(n - 1 + 1)) == 0);
        assert(is_valid_point(s, n - 1));
    }
}

/// Behind a leading application mark the count runs one below the count of the whole.
pub proof fn lemma_counter_behind_apply(s: Seq<Token>, j: int)
    requires
        s.len() > 0,
        s[0] == Token::Apply,
        0 <= j < s.len(),
    ensures
        counter(s.skip(1).take(j)) == counter(s.take(j + 1)) - 1,
{
    let head = seq![Token::Apply];
    assert(head.drop_last().len() == 0);
    assert(counter(head.drop_last()) == 1);
    assert(counter(head) == 2);
    assert(s.take(j + 1) == head + s.skip(1).take(j));
    lemma_counter_concat(head, s.skip(1).take(j));
}

/// A formula that begins with an application mark divides in one way only: what follows
/// the mark has a valid point, before its end, the tokens up to and including that point
/// are one formula, and the tokens behind it are another.
pub proof fn lemma_split_point(s: Seq<Token>) -> (p: int)
    requires
        well_formed(s),
        s[0] == Token::Apply,
    ensures
        is_valid_point(s.skip(1), p),
        p + 1 < s.skip(1).len(),
        well_formed(s.skip(1).take(p + 1)),
        well_formed(s.skip(1).skip(p + 1)),
        s.skip(1).take(p + 1) + s.skip(1).skip(p + 1) == s.skip(1),
        forall|q: int| is_valid_point(s.skip(1), q) ==> q == p,
{
    let rest = s.skip(1);
    let n = s.len() as int;
    assert(counter(rest.take(n - 1)) == -1) by {
        assert(s.take(n - 1 + 1) == s.take(n));
        lemma_counter_behind_apply(s, n - 1);
    }
    lemma_first_zero(rest, n - 1);
    let p = choose|p: int| is_valid_point(rest, p) && p < n - 1;
    assert forall|q: int| is_valid_point(rest, q) implies q == p by {
        lemma_valid_point_unique(rest, p, q);
    }
    lemma_split_at_point(s, p);
    p
}

/// The first complete formula of a sequence, cut out, is one formula.
pub proof fn lemma_first_formula(s: Seq<Token>, p: int)
    requires
        is_valid_point(s, p),
    ensures
        well_formed(s.take(p + 1)),
{
    let function = s.take(p + 1);
    assert(function.take(p + 1) == function);
    assert forall|j: int| 0 <= j <= p implies counter(#[trigger] function.take(j)) > 0 by {
        assert(function.take(j) == s.take(j));
    }
}

/// Behind a complete formula the count runs as it does from the start.
pub proof fn lemma_counter_behind_formula(s: Seq<Token>, p: int, k: int)
    requires
        0 <= p < s.len(),
        counter(s.take(p + 1)) == 0,
        0 <= k <= s.len() - (p + 1),
    ensures
        counter(s.skip(p + 1).take(k)) == counter(s.take(p + 1 + k)) + 1,
{
    assert(s.take(p + 1 + k) == s.take(p + 1) + s.skip(p + 1).take(k));
    lemma_counter_concat(s.take(p + 1), s.skip(p + 1).take(k));
}

/// Dividing what follows a leading application mark at its valid point gives two
/// formulas.
pub proof fn lemma_split_at_point(s: Seq<Token>, p: int)
    requires
        well_formed(s),
        s[0] == Token::Apply,
        is_valid_point(s.skip(1), p),
    ensures
        p + 1 < s.skip(1).len(),
        well_formed(s.skip(1).take(p + 1)),
        well_formed(s.skip(1).skip(p + 1)),
        s.skip(1).take(p + 1) + s.skip(1).skip(p + 1) == s.skip(1),
{
    let rest = s.skip(1);
    let n = s.len() as int;
    let argument = rest.skip(p + 1);
    let m = argument.len() as int;
    assert(rest.take(p + 1) + argument == rest);
    lemma_first_formula(rest, p);
    assert(counter(s.take(n)) == 0) by {
        assert(s.take(n - 1 + 1) == s.take(n));
    }
    assert(p + 1 < rest.len()) by {
        if p + 1 == rest.len() {
            lemma_counter_behind_apply(s, n - 1);
        }
    }
    assert forall|k: int| 0 <= k <= m implies counter(#[trigger] argument.take(k)) == counter(
        s.take(p + 2 + k),
    ) by {
        lemma_counter_behind_formula(rest, p, k);
        lemma_counter_behind_apply(s, p + 1 + k);
    }
    assert(counter(argument.take(m - 1 + 1)) == 0) by {
        assert(argument.take(m - 1 + 1) == argument.take(m));
        assert(p + 2 + m == n);
    }
    assert forall|k: int| 0 <= k <= m - 1 implies counter(#[trigger] argument.take(k)) > 0 by {
        assert(counter(s.take(p + 2 + k)) > 0);
    }
}

/// A text has at most one reading, and has one exactly when all its characters belong to
/// the alphabet.
pub proof fn lemma_lexed(text: Seq<char>, tokens: Seq<Token>)
    ensures
        lexes_to(text, tokens) <==> in_alphabet(text) && tokens == lexed(text),
        in_alphabet(text) <==> !exists|i: int| first_foreign_at(text, i),
{
    if lexes_to(text, tokens) {
        assert(tokens =~= lexed(text));
    }
    if !in_alphabet(text) {
        let i = choose|i: int| 0 <= i < text.len() && Token::spec_from_char(text[i]) is None;
        lemma_first_foreign(text, i);
    }
}

/// Before a character outside the alphabet stands a first one.
pub proof fn lemma_first_foreign(text: Seq<char>, i: int)
    requires
        0 <= i < text.len(),
        Token::spec_from_char(text[i]) is None,
    ensures
        exists|j: int| first_foreign_at(text, j) && j <= i,
    decreases i,
{
    if exists|k: int| 0 <= k < i && Token::spec_from_char(text[k]) is None {
        let k = choose|k: int| 0 <= k < i && Token::spec_from_char(text[k]) is None;
        lemma_first_foreign(text, k);
    } else {
        assert(first_foreign_at(text, i));
    }
}

} // verus!
