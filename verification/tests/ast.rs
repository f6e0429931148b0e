use std::convert::TryFrom;

use ski_rs::ast::{Ast, AstInner};
use ski_rs::error::{FormulaError, InvalidError, LexiconError};
use ski_rs::lambda::Apply;
use ski_rs::sequence::Sequence;
use ski_rs::term::Ski;
use ski_rs::token::Atom::{I, K, S};

fn node(function: Ast, argument: Ast) -> Ast {
    Ast::Apply(AstInner { function: Box::new(function), argument: Box::new(argument) })
}

#[test]
fn try_from_sequence() {
    let str = "`sk";
    let seq = Sequence::try_from(str).unwrap();
    let ast = Ast::try_from(seq);

    let target = Ast::Apply(AstInner {
        function: Box::new(Ast::Leaf(S)),
        argument: Box::new(Ast::Leaf(K)),
    });
    assert_eq!(ast, Ok(target));

    let str = "`s";
    let seq = Sequence::try_from(str).unwrap();
    let ast = Ast::try_from(seq);

    assert_eq!(ast, Err(FormulaError::NotEnoughAtoms));

    let str = "`ski";
    let seq = Sequence::try_from(str).unwrap();
    let ast = Ast::try_from(seq);

    assert_eq!(ast, Err(FormulaError::SurplusTokens));
}

#[test]
fn parse_builds_nested_trees() {
    let seq = Sequence::try_from("``s`ki`ik").unwrap();
    let target = node(node(Ast::Leaf(S), node(Ast::Leaf(K), Ast::Leaf(I))), node(Ast::Leaf(I), Ast::Leaf(K)));
    assert_eq!(Ast::try_from(seq), Ok(target));
    let seq = Sequence::try_from("k").unwrap();
    assert_eq!(Ast::try_from(seq), Ok(Ast::Leaf(K)));
}

#[test]
fn parse_refuses_what_is_not_one_formula() {
    for text in ["", "`", "``ki", "`i`i`i"] {
        let seq = Sequence::try_from(text).unwrap();
        assert_eq!(Ast::try_from(seq), Err(FormulaError::NotEnoughAtoms));
    }
    for text in ["sk", "s`", "sk`", "``kiii"] {
        let seq = Sequence::try_from(text).unwrap();
        assert_eq!(Ast::try_from(seq), Err(FormulaError::SurplusTokens));
    }
}

#[test]
fn round_trip_of_well_formed_sequences() {
    for text in ["s", "k", "i", "`si", "`ki", "``kii", "```siii", "`i`i`ii", "```s``kii```skiis"] {
        let seq = Sequence::try_from(text).unwrap();
        let ast = Ast::try_from(seq.clone()).unwrap();
        assert_eq!(Sequence::from(ast), seq);
    }
}

#[test]
fn parse_from_text() {
    assert_eq!(Ast::try_from("`sk"), Ok(node(Ast::Leaf(S), Ast::Leaf(K))));
    assert_eq!(
        Ast::try_from("`s"),
        Err(InvalidError::FormulaError(FormulaError::NotEnoughAtoms))
    );
    assert_eq!(
        Ast::try_from("sk"),
        Err(InvalidError::FormulaError(FormulaError::SurplusTokens))
    );
    assert_eq!(
        Ast::try_from("`sx"),
        Err(InvalidError::LexiconError(LexiconError::new(2, 'x')))
    );
    assert_eq!(
        Ast::try_from("x`"),
        Err(InvalidError::LexiconError(LexiconError::new(0, 'x')))
    );
}

#[test]
fn children_of_an_application() {
    let inner = AstInner { function: Box::new(Ast::Leaf(S)), argument: Box::new(Ast::Leaf(K)) };
    assert_eq!(inner.to_function(), Ast::Leaf(S));
    assert_eq!(inner.to_argument(), Ast::Leaf(K));
    assert_eq!(inner.clone().into_function(), Ast::Leaf(S));
    assert_eq!(inner.into_argument(), Ast::Leaf(K));
}

#[test]
fn copies_of_trees_are_equal() {
    let tree = node(node(Ast::Leaf(S), Ast::Leaf(K)), Ast::Leaf(I));
    assert_eq!(tree.duplicate(), tree);
    assert_eq!(tree.clone(), tree);
}

#[test]
fn lowering_of_values() {
    let sp = Ski::S.apply(Ski::I, 0).unwrap();
    let kp = Ski::K.apply(Ski::I, 0).unwrap();
    let spp = sp.apply(Ski::K, 0).unwrap();
    assert_eq!(Ast::from(Ski::S), Ast::Leaf(S));
    assert_eq!(Ast::from(Ski::K), Ast::Leaf(K));
    assert_eq!(Ast::from(Ski::I), Ast::Leaf(I));
    assert_eq!(Ast::from(sp), node(Ast::Leaf(S), Ast::Leaf(I)));
    assert_eq!(Ast::from(kp.clone()), node(Ast::Leaf(K), Ast::Leaf(I)));
    assert_eq!(Ast::from(spp), node(node(Ast::Leaf(S), Ast::Leaf(I)), Ast::Leaf(K)));
    let nested = Ski::S.apply(kp, 0).unwrap();
    assert_eq!(Sequence::from(Ast::from(nested)).to_string(), "`s`ki");
}

#[test]
fn errors_convert_into_the_common_error() {
    assert_eq!(
        InvalidError::from(FormulaError::SurplusTokens),
        InvalidError::FormulaError(FormulaError::SurplusTokens)
    );
    assert_eq!(
        InvalidError::from(LexiconError::new(7, 'q')),
        InvalidError::LexiconError(LexiconError { error_point: 7, error_char: 'q' })
    );
}
