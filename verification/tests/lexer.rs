use lish::error::Error;
use lish::lexer::Lexer;
use lish::token::Token;

fn lex(input: &str) -> Result<Vec<Token>, Error> {
    Lexer::new().tokenize(input)
}

#[test]
fn lex_ident_alpha() {
    assert_eq!(lex("ls").unwrap(), vec![Token::Ident("ls".to_owned())]);
}

#[test]
fn lex_ident_with_slash() {
    assert_eq!(
        lex("/bin/echo").unwrap(),
        vec![Token::Ident("/bin/echo".to_owned())]
    );
}

#[test]
fn lex_ident_with_dash() {
    assert_eq!(lex("-lol").unwrap(), vec![Token::Ident("-lol".to_owned())]);
}

#[test]
fn lex_ident_with_dots() {
    assert_eq!(lex(".").unwrap(), vec![Token::Ident(".".to_owned())]);
}

#[test]
fn lex_two_idents_with_dash() {
    assert_eq!(
        lex("ls -la").unwrap(),
        vec![Token::Ident("ls".to_owned()), Token::Ident("-la".to_owned())]
    );
}

#[test]
fn lex_multiple_idents() {
    assert_eq!(
        lex("ls -l -a file").unwrap(),
        vec![
            Token::Ident("ls".to_owned()),
            Token::Ident("-l".to_owned()),
            Token::Ident("-a".to_owned()),
            Token::Ident("file".to_owned())
        ]
    );
}

#[test]
fn lex_ident_with_math_symbols() {
    assert_eq!(lex("+=-*%").unwrap(), vec![Token::Ident("+=-*%".to_owned())]);
}

#[test]
fn lex_ident_with_quotes() {
    assert_eq!(
        lex("\"abc def\"").unwrap(),
        vec![Token::Ident("\"abc def\"".to_owned())]
    );
}

#[test]
fn lex_left_parenthesis() {
    assert_eq!(lex("(").unwrap(), vec![Token::LParen]);
}

#[test]
fn lex_right_parenthesis() {
    assert_eq!(lex(")").unwrap(), vec![Token::RParen]);
}

#[test]
fn lex_illegal() {
    match lex("^").unwrap_err() {
        Error::UnexpectedCharacter(c) => {
            assert_eq!(c, '^');
        }
        _ => {
            assert!(false);
        }
    }
}

#[test]
fn lex_unterminated_string() {
    match lex("\"abc").unwrap_err() {
        Error::UnexpectedCharacter(c) => {
            assert_eq!(c, '"');
        }
        _ => {
            assert!(false);
        }
    }
}
