use diceman::lexer::{Lexer, Token};
use diceman::Error;

#[test]
fn test_basic_roll() {
    let mut lexer = Lexer::new("2d6");
    assert_eq!(lexer.next_token().unwrap(), Token::Number(2));
    assert_eq!(lexer.next_token().unwrap(), Token::D);
    assert_eq!(lexer.next_token().unwrap(), Token::Number(6));
    assert_eq!(lexer.next_token().unwrap(), Token::Eof);
}

#[test]
fn lexer_test_roll_with_modifier() {
    let mut lexer = Lexer::new("4d6kh3");
    assert_eq!(lexer.next_token().unwrap(), Token::Number(4));
    assert_eq!(lexer.next_token().unwrap(), Token::D);
    assert_eq!(lexer.next_token().unwrap(), Token::Number(6));
    assert_eq!(lexer.next_token().unwrap(), Token::K);
    assert_eq!(lexer.next_token().unwrap(), Token::H);
    assert_eq!(lexer.next_token().unwrap(), Token::Number(3));
    assert_eq!(lexer.next_token().unwrap(), Token::Eof);
}

#[test]
fn test_expression() {
    let mut lexer = Lexer::new("2d6 + 5");
    assert_eq!(lexer.next_token().unwrap(), Token::Number(2));
    assert_eq!(lexer.next_token().unwrap(), Token::D);
    assert_eq!(lexer.next_token().unwrap(), Token::Number(6));
    assert_eq!(lexer.next_token().unwrap(), Token::Plus);
    assert_eq!(lexer.next_token().unwrap(), Token::Number(5));
    assert_eq!(lexer.next_token().unwrap(), Token::Eof);
}

#[test]
fn test_explode() {
    let mut lexer = Lexer::new("1d6!");
    assert_eq!(lexer.next_token().unwrap(), Token::Number(1));
    assert_eq!(lexer.next_token().unwrap(), Token::D);
    assert_eq!(lexer.next_token().unwrap(), Token::Number(6));
    assert_eq!(lexer.next_token().unwrap(), Token::Explode);
    assert_eq!(lexer.next_token().unwrap(), Token::Eof);
}

#[test]
fn test_percent_and_fudge() {
    let mut lexer = Lexer::new("d% dF");
    assert_eq!(lexer.next_token().unwrap(), Token::D);
    assert_eq!(lexer.next_token().unwrap(), Token::Percent);
    assert_eq!(lexer.next_token().unwrap(), Token::D);
    assert_eq!(lexer.next_token().unwrap(), Token::Fudge);
    assert_eq!(lexer.next_token().unwrap(), Token::Eof);
}

#[test]
fn lexer_numbers_saturate() {
    let mut lexer = Lexer::new("99999999999 4294967295 4294967296");
    assert_eq!(lexer.next_token().unwrap(), Token::Number(u32::MAX));
    assert_eq!(lexer.next_token().unwrap(), Token::Number(u32::MAX));
    assert_eq!(lexer.next_token().unwrap(), Token::Number(u32::MAX));
    assert_eq!(lexer.next_token().unwrap(), Token::Eof);
}

#[test]
fn lexer_peek_does_not_consume() {
    let mut lexer = Lexer::new(" 12 p");
    assert_eq!(lexer.peek().unwrap(), Token::Number(12));
    assert_eq!(lexer.pos(), 0);
    assert_eq!(lexer.next_token().unwrap(), Token::Number(12));
    assert_eq!(lexer.pos(), 1);
    assert_eq!(lexer.next_token().unwrap(), Token::P);
    assert_eq!(lexer.pos(), 4);
    assert_eq!(lexer.next_token().unwrap(), Token::Eof);
    assert_eq!(lexer.next_token().unwrap(), Token::Eof);
}

#[test]
fn lexer_unexpected_char_gives_byte_offset() {
    let mut lexer = Lexer::new("1d6 é");
    assert_eq!(lexer.next_token().unwrap(), Token::Number(1));
    assert_eq!(lexer.next_token().unwrap(), Token::D);
    assert_eq!(lexer.next_token().unwrap(), Token::Number(6));
    match lexer.next_token() {
        Err(Error::UnexpectedChar(c, pos)) => {
            assert_eq!(c, 'é');
            assert_eq!(pos, 4);
        }
        other => panic!("unexpected: {:?}", other),
    }
    let mut lexer = Lexer::new("é$");
    match lexer.next_token() {
        Err(Error::UnexpectedChar(c, pos)) => {
            assert_eq!(c, 'é');
            assert_eq!(pos, 0);
        }
        other => panic!("unexpected: {:?}", other),
    }
}

#[test]
fn lexer_refuses_uppercase_p() {
    let mut lexer = Lexer::new("1d6!P");
    assert_eq!(lexer.next_token().unwrap(), Token::Number(1));
    assert_eq!(lexer.next_token().unwrap(), Token::D);
    assert_eq!(lexer.next_token().unwrap(), Token::Number(6));
    assert_eq!(lexer.next_token().unwrap(), Token::Explode);
    assert!(matches!(lexer.next_token(), Err(Error::UnexpectedChar('P', 4))));
}

#[test]
fn lexer_pos_is_start_of_last_token() {
    let mut lexer = Lexer::new("2d6 + 5");
    for _ in 0..4 {
        lexer.next_token().unwrap();
    }
    assert_eq!(lexer.pos(), 4);
    assert_eq!(lexer.next_token().unwrap(), Token::Number(5));
    assert_eq!(lexer.pos(), 6);
    assert_eq!(lexer.next_token().unwrap(), Token::Eof);
    assert_eq!(lexer.pos(), 6);
    let mut lexer = Lexer::new("2x");
    assert_eq!(lexer.next_token().unwrap(), Token::Number(2));
    assert!(matches!(lexer.next_token(), Err(Error::UnexpectedChar('x', 1))));
}

#[test]
fn lexer_all_symbols() {
    let mut lexer = Lexer::new("\t%Ff+-*/()kKhHlL!rRoOp=<>\u{3000}");
    let expected = vec![
        Token::Percent,
        Token::Fudge,
        Token::Fudge,
        Token::Plus,
        Token::Minus,
        Token::Star,
        Token::Slash,
        Token::LParen,
        Token::RParen,
        Token::K,
        Token::K,
        Token::H,
        Token::H,
        Token::L,
        Token::L,
        Token::Explode,
        Token::R,
        Token::R,
        Token::O,
        Token::O,
        Token::P,
        Token::Eq,
        Token::Lt,
        Token::Gt,
        Token::Eof,
    ];
    for t in expected {
        assert_eq!(lexer.next_token().unwrap(), t);
    }
}
