use microgpt::tokenizer::{Token, Tokenizer};

#[test]
fn vocabulary_of_letters_and_bos() {
    assert_eq!(Tokenizer::vocabulary(Token::C('a')), Some(0));
    assert_eq!(Tokenizer::vocabulary(Token::C('m')), Some(12));
    assert_eq!(Tokenizer::vocabulary(Token::C('z')), Some(25));
    assert_eq!(Tokenizer::vocabulary(Token::Bos), Some(26));
}

#[test]
fn vocabulary_of_non_letters() {
    assert_eq!(Tokenizer::vocabulary(Token::C('1')), None);
    assert_eq!(Tokenizer::vocabulary(Token::C(' ')), None);
    assert_eq!(Tokenizer::vocabulary(Token::C('-')), None);
}

#[test]
fn vocabulary_shifts_the_low_byte_of_other_letters() {
    // U+00E9 is alphabetic; its low byte 0xE9 is 233
    assert_eq!(Tokenizer::vocabulary(Token::C('é')), Some(136));
}

#[test]
fn checked_vocabulary_refuses_what_cannot_be_shifted() {
    assert_eq!(Tokenizer::checked_vocabulary(Token::C('A')), None);
    assert_eq!(Tokenizer::checked_vocabulary(Token::C('b')), Some(Some(1)));
    assert_eq!(Tokenizer::checked_vocabulary(Token::C('?')), Some(None));
    assert_eq!(Tokenizer::checked_vocabulary(Token::Bos), Some(Some(26)));
}

#[test]
fn to_char_inverts_vocabulary_on_letters() {
    for c in 'a'..='z' {
        let id = Tokenizer::vocabulary(Token::C(c)).unwrap();
        assert_eq!(Tokenizer::to_char(id), c);
    }
    assert_eq!(Tokenizer::to_char(256), 'a');
}

#[test]
fn vocabulary_inverts_to_char_on_letter_ids() {
    for i in 0..26 {
        assert_eq!(Tokenizer::vocabulary(Token::C(Tokenizer::to_char(i))), Some(i));
    }
}
