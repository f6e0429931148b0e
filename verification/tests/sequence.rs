use std::collections::VecDeque;
use std::convert::TryFrom;

use ski_rs::ast::{Ast, AstInner};
use ski_rs::error::{FormulaError, LexiconError};
use ski_rs::sequence::Sequence;
use ski_rs::token::{Atom, Token};

#[test]
fn from_str_valid() {
    let string = "```s``kii";
    let vec = vec![
        Token::a(),
        Token::a(),
        Token::a(),
        Token::s(),
        Token::a(),
        Token::a(),
        Token::k(),
        Token::i(),
        Token::i(),
    ];
    let vec = VecDeque::from(vec);
    let tokens = Sequence::from(vec);
    println!("{:?}", tokens);
    assert_eq!(Sequence::try_from(string).unwrap(), tokens);
}

#[test]
fn from_str_invalid() {
    let string = "`ski-kk";
    assert_eq!(Sequence::try_from(string), Err(LexiconError::new(4, '-')));
}

#[test]
fn from_str_print() {
    let str = "```s``kii";
    let tokens = Sequence::try_from(str).unwrap();
    println!("tokenize_print: '{}' -> {:?}", str, tokens);
}

#[test]
fn split() {
    let seq = Sequence::try_from("```iii").unwrap();
    let res = Sequence::split(seq, 3);
    let t1 = Sequence::try_from("```").unwrap();
    let t2 = Sequence::try_from("iii").unwrap();
    assert_eq!(res, (t1, t2));

    let mut seq = Sequence::try_from("`sk").unwrap();
    seq.dequeue();
    let res = Sequence::split(seq, 0);
    let t1 = Sequence::try_from("").unwrap();
    let t2 = Sequence::try_from("sk").unwrap();
    assert_eq!(res, (t1, t2));
}

#[test]
fn dequeue() {
    let mut seq = Sequence::try_from("`sk").unwrap();
    assert_eq!(seq.dequeue(), Some(Token::a()));
    assert_eq!(seq.dequeue(), Some(Token::s()));
    assert_eq!(seq.dequeue(), Some(Token::k()));
    assert_eq!(seq.dequeue(), None);
}

#[test]
fn into_iter() {
    let mut seq = Sequence::try_from("`sk").unwrap();
    for (u, t) in (&seq).into_iter().enumerate() {
        if u == 0 {
            assert_eq!(t, &Token::a());
        }
        if u == 1 {
            assert_eq!(t, &Token::s());
        }
        if u == 2 {
            assert_eq!(t, &Token::k());
        }
    }

    seq.dequeue();

    for (u, t) in (&seq).into_iter().enumerate() {
        if u == 0 {
            assert_eq!(t, &Token::s());
        }
        if u == 1 {
            assert_eq!(t, &Token::k());
        }
    }
}

#[test]
fn simple_check_valid_token() {
    let seq = Sequence::try_from("``sii").unwrap();
    let result = seq.is_valid();
    assert_eq!(result, Ok(true));
    let seq = Sequence::try_from("`si").unwrap();
    let result = seq.is_valid();
    assert_eq!(result, Ok(true));
    let seq = Sequence::try_from("`ki").unwrap();
    let result = seq.is_valid();
    assert_eq!(result, Ok(true));
}

#[test]
fn simple_check_invalid_token() {
    // too much apply token
    let seq = Sequence::try_from("```").unwrap();
    let result = seq.is_valid();
    assert_eq!(result, Err(FormulaError::NotEnoughAtoms));

    // too much atom token
    let seq = Sequence::try_from("`sss").unwrap();
    let result = seq.is_valid();
    assert_eq!(result, Err(FormulaError::SurplusTokens));

    // empty token (equals to too much apply)
    let seq = Sequence::try_from("").unwrap();
    let result = seq.is_valid();
    assert_eq!(result, Err(FormulaError::NotEnoughAtoms));
}

#[test]
fn search_valid_point() {
    let s = Sequence::try_from("``sii").unwrap();
    assert_eq!(s.valid_point(), Ok(4));
    let s = Sequence::try_from("``siii").unwrap();
    assert_eq!(s.valid_point(), Ok(4));
    let s = Sequence::try_from("``si").unwrap();
    assert_eq!(s.valid_point(), Err(FormulaError::NotEnoughAtoms));

    let mut s = Sequence::try_from("`sk").unwrap();
    assert_eq!(s.valid_point(), Ok(2));
    s.dequeue();
    assert_eq!(s.valid_point(), Ok(0));
}

#[test]
fn empty_sequence() {
    let mut seq = Sequence::new();
    assert_eq!(seq.len(), 0);
    assert_eq!(seq.pop(), None);
    assert_eq!(seq.dequeue(), None);
    assert_eq!(seq.to_string(), "");
    assert_eq!(seq, Sequence::try_from("").unwrap());
    assert_eq!(seq.valid_point(), Err(FormulaError::NotEnoughAtoms));
}

#[test]
fn pop_takes_the_last_token() {
    let mut seq = Sequence::try_from("`sk").unwrap();
    assert_eq!(seq.len(), 3);
    assert_eq!(seq.pop(), Some(Token::k()));
    assert_eq!(seq.pop(), Some(Token::s()));
    assert_eq!(seq.len(), 1);
    assert_eq!(seq.pop(), Some(Token::a()));
    assert_eq!(seq.pop(), None);
}

#[test]
fn join_appends_in_order() {
    let mut seq = Sequence::try_from("``s").unwrap();
    let other = Sequence::try_from("ki").unwrap();
    seq.join(&other);
    assert_eq!(seq, Sequence::try_from("``ski").unwrap());
    assert_eq!(other.len(), 2);
    seq.join(&Sequence::new());
    assert_eq!(seq.to_string(), "``ski");
}

#[test]
fn plus_concatenates() {
    let a = Sequence::try_from("`k").unwrap();
    let b = Sequence::try_from("i`").unwrap();
    assert_eq!((a + b).to_string(), "`ki`");
    let a = Sequence::new();
    let b = Sequence::try_from("s").unwrap();
    assert_eq!(a + b, Sequence::from(Token::s()));
}

#[test]
fn sequence_from_tokens() {
    assert_eq!(Sequence::from(Token::a()).to_string(), "`");
    let seq = Sequence::from(vec![Token::a(), Token::k(), Token::i()]);
    assert_eq!(seq, Sequence::try_from("`ki").unwrap());
    assert_eq!(Sequence::from(Vec::<Token>::new()), Sequence::new());
}

#[test]
fn to_string_writes_every_token() {
    for text in ["", "`", "s", "k", "i", "```s``kii```skiis", "ski`"] {
        assert_eq!(Sequence::try_from(text).unwrap().to_string(), text);
    }
}

#[test]
fn lexing_stops_at_the_first_foreign_character() {
    assert_eq!(Sequence::try_from("x"), Err(LexiconError::new(0, 'x')));
    assert_eq!(Sequence::try_from("`sx"), Err(LexiconError::new(2, 'x')));
    assert_eq!(Sequence::try_from("`s x-"), Err(LexiconError::new(2, ' ')));
    assert_eq!(Sequence::try_from("sé`"), Err(LexiconError::new(1, 'é')));
    assert_eq!(Sequence::try_from("`sK"), Err(LexiconError::new(2, 'K')));
    let e = Sequence::try_from("ii?").unwrap_err();
    assert_eq!(e.error_point, 2);
    assert_eq!(e.error_char, '?');
}

#[test]
fn validity_needs_the_count_to_end_at_the_last_token() {
    for text in ["s", "k", "i", "`si", "``kii", "```siii", "`i`i`ii", "```s``kii```skiis"] {
        assert_eq!(Sequence::try_from(text).unwrap().is_valid(), Ok(true));
    }
    for text in ["", "`", "`s", "``ss", "```", "`i`i`i"] {
        assert_eq!(
            Sequence::try_from(text).unwrap().is_valid(),
            Err(FormulaError::NotEnoughAtoms)
        );
    }
    for text in ["sk", "`ski", "s`", "sk`", "i`ii", "``kiii", "ss``"] {
        assert_eq!(
            Sequence::try_from(text).unwrap().is_valid(),
            Err(FormulaError::SurplusTokens)
        );
    }
}

#[test]
fn valid_point_is_the_end_of_the_first_formula() {
    assert_eq!(Sequence::try_from("s").unwrap().valid_point(), Ok(0));
    assert_eq!(Sequence::try_from("sk`").unwrap().valid_point(), Ok(0));
    assert_eq!(Sequence::try_from("`ski").unwrap().valid_point(), Ok(2));
    assert_eq!(Sequence::try_from("```siii").unwrap().valid_point(), Ok(6));
    assert_eq!(
        Sequence::try_from("`").unwrap().valid_point(),
        Err(FormulaError::NotEnoughAtoms)
    );
}

#[test]
fn split_point_divides_function_from_argument() {
    let mut seq = Sequence::try_from("```ski`ki").unwrap();
    assert_eq!(seq.is_valid(), Ok(true));
    let n = seq.len();
    assert_eq!(seq.dequeue(), Some(Token::a()));
    let rest = seq.clone();
    let p = seq.valid_point().unwrap();
    assert_eq!(p, 4);
    assert!(p + 1 < n - 1);
    let (function, argument) = seq.split(p + 1);
    assert_eq!(function.to_string(), "``ski");
    assert_eq!(argument.to_string(), "`ki");
    assert_eq!(function.is_valid(), Ok(true));
    assert_eq!(argument.is_valid(), Ok(true));
    assert_eq!(function + argument, rest);
}

#[test]
fn split_of_a_well_formed_application() {
    for text in ["`si", "``kii", "```siii", "`i`i`ii", "```s``kii```skiis"] {
        let mut seq = Sequence::try_from(text).unwrap();
        seq.dequeue();
        let rest = seq.clone();
        let p = seq.valid_point().unwrap();
        assert!(p + 1 < rest.len());
        let (function, argument) = seq.split(p + 1);
        assert_eq!(function.is_valid(), Ok(true));
        assert_eq!(argument.is_valid(), Ok(true));
        assert_eq!(function + argument, rest);
    }
}

#[test]
fn split_at_both_ends() {
    let seq = Sequence::try_from("`sk").unwrap();
    let (a, b) = seq.clone().split(0);
    assert_eq!(a, Sequence::new());
    assert_eq!(b, seq);
    let (a, b) = seq.clone().split(3);
    assert_eq!(a, seq);
    assert_eq!(b, Sequence::new());
}

#[test]
fn cut_formula_keeps_what_stands_before_the_valid_point() {
    let seq = Sequence::try_from("`skii").unwrap();
    assert_eq!(seq.cut_formula(), Ok(Sequence::try_from("`s").unwrap()));
    let seq = Sequence::try_from("s").unwrap();
    assert_eq!(seq.cut_formula(), Ok(Sequence::new()));
    let seq = Sequence::try_from("``s").unwrap();
    assert_eq!(seq.cut_formula(), Err(FormulaError::NotEnoughAtoms));
}

#[test]
fn formula_and_rest_divides_at_the_valid_point() {
    let seq = Sequence::try_from("`skii").unwrap();
    assert_eq!(
        seq.formula_and_rest(),
        Ok((Sequence::try_from("`s").unwrap(), Sequence::try_from("kii").unwrap()))
    );
    let seq = Sequence::new();
    assert_eq!(seq.formula_and_rest(), Err(FormulaError::NotEnoughAtoms));
}

#[test]
fn sequence_from_tree() {
    let tree = Ast::Apply(AstInner {
        function: Box::new(Ast::Apply(AstInner {
            function: Box::new(Ast::Leaf(Atom::S)),
            argument: Box::new(Ast::Leaf(Atom::K)),
        })),
        argument: Box::new(Ast::Apply(AstInner {
            function: Box::new(Ast::Leaf(Atom::I)),
            argument: Box::new(Ast::Leaf(Atom::K)),
        })),
    });
    assert_eq!(Sequence::from(tree).to_string(), "``sk`ik");
    assert_eq!(Sequence::from(Ast::Leaf(Atom::I)).to_string(), "i");
}
