use ski_rs::token::{Atom, Token};

#[test]
fn constractor() {
    assert_eq!(Token::a(), Token::Apply);
    assert_eq!(Token::s(), Token::Atom(Atom::S));
    assert_eq!(Token::k(), Token::Atom(Atom::K));
    assert_eq!(Token::i(), Token::Atom(Atom::I));
}

#[test]
fn macro_rules() {
    assert_eq!(Token::Apply, Token::Apply);
    assert_eq!(Token::Atom(Atom::S), Token::Atom(Atom::S));
    assert_eq!(Token::Atom(Atom::K), Token::Atom(Atom::K));
    assert_eq!(Token::Atom(Atom::I), Token::Atom(Atom::I));
}

#[test]
fn token_from_atom() {
    assert_eq!(Token::from(Atom::S), Token::s());
    assert_eq!(Token::from(Atom::K), Token::k());
    assert_eq!(Token::from(Atom::I), Token::i());
}

#[test]
fn symbols_of_tokens() {
    assert_eq!(Token::a().symbol(), '`');
    assert_eq!(Token::s().symbol(), 's');
    assert_eq!(Token::k().symbol(), 'k');
    assert_eq!(Token::i().symbol(), 'i');
    assert_eq!(Atom::S.symbol(), 's');
    assert_eq!(Atom::K.symbol(), 'k');
    assert_eq!(Atom::I.symbol(), 'i');
}

#[test]
fn tokens_from_characters() {
    assert_eq!(Token::from_char('`'), Some(Token::Apply));
    assert_eq!(Token::from_char('s'), Some(Token::Atom(Atom::S)));
    assert_eq!(Token::from_char('k'), Some(Token::Atom(Atom::K)));
    assert_eq!(Token::from_char('i'), Some(Token::Atom(Atom::I)));
    assert_eq!(Token::from_char('S'), None);
    assert_eq!(Token::from_char(' '), None);
    for t in [Token::a(), Token::s(), Token::k(), Token::i()] {
        assert_eq!(Token::from_char(t.symbol()), Some(t));
    }
}
