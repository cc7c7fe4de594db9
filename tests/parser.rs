use brain_opt::error::Error;
use brain_opt::parser::{brackets_balanced, tokenize, try_parse, Token};
use brain_opt::parse;

#[test]
fn test_parse() {
    assert_eq!(parse("[->+<?]"), vec![
        Token::JumpForwards,
        Token::Decrement,
        Token::Next,
        Token::Increment,
        Token::Prev,
        Token::JumpBackwards,
    ]);
}

#[test]
fn token_parse_maps_the_eight_commands() {
    let chars = ['>', '<', '+', '-', '.', ',', '[', ']'];
    let tokens = [
        Token::Next,
        Token::Prev,
        Token::Increment,
        Token::Decrement,
        Token::Output,
        Token::Input,
        Token::JumpForwards,
        Token::JumpBackwards,
    ];
    for (c, t) in chars.iter().zip(tokens.iter()) {
        assert_eq!(Token::parse(*c), Some(*t));
        assert_eq!(t.to_char(), *c);
    }
    assert_eq!(Token::parse('a'), None);
    assert_eq!(Token::parse(' '), None);
}

#[test]
fn tokenize_drops_comments() {
    assert_eq!(tokenize("hello + world ."), vec![Token::Increment, Token::Output]);
    assert_eq!(tokenize(""), Vec::<Token>::new());
}

#[test]
fn unbalanced_brackets_are_rejected() {
    assert!(matches!(try_parse("[+"), Err(Error::UnbalancedBrackets)));
    assert!(matches!(try_parse("+]["), Err(Error::UnbalancedBrackets)));
    assert!(matches!(try_parse("]"), Err(Error::UnbalancedBrackets)));
    assert!(matches!(try_parse("[[]]"), Ok(_)));
    assert!(!brackets_balanced(&tokenize("][")));
    assert!(brackets_balanced(&tokenize("[][[]]")));
}
