use drsm::{Core, Error, Token, Word};

#[test]
fn lex_classifies_each_run() {
    let ts = Token::lex("def x 12 -3 #ff foo zero? -").unwrap();
    assert_eq!(
        ts,
        vec![
            Token::Def,
            Token::Custom("x"),
            Token::Num(12),
            Token::Num(-3),
            Token::Hex(255),
            Token::Custom("foo"),
            Token::Core(Core::Zero),
            Token::Custom("-"),
        ]
    );
    assert_eq!(Token::lex("   ").unwrap(), vec![]);
}

#[test]
fn lex_longest_run_wins() {
    assert_eq!(
        Token::lex("defx adder 12ab #xyz # dup").unwrap(),
        vec![
            Token::Custom("defx"),
            Token::Custom("adder"),
            Token::Custom("12ab"),
            Token::Custom("#xyz"),
            Token::Custom("#"),
            Token::Core(Core::Dup),
        ]
    );
}

#[test]
fn lex_number_limits() {
    assert_eq!(
        Token::lex("9223372036854775807 -9223372036854775808 #7fffffffffffffff 007 -0").unwrap(),
        vec![
            Token::Num(i64::MAX),
            Token::Num(i64::MIN),
            Token::Hex(i64::MAX),
            Token::Num(7),
            Token::Num(0),
        ]
    );
    assert_eq!(
        Token::lex("1 9223372036854775808"),
        Err(Error::Parsing("9223372036854775808".to_string()))
    );
    assert_eq!(
        Token::lex("-9223372036854775809"),
        Err(Error::Parsing("-9223372036854775809".to_string()))
    );
    assert_eq!(
        Token::lex("#8000000000000000"),
        Err(Error::Parsing("#8000000000000000".to_string()))
    );
    assert_eq!(
        Token::lex("#FFFFFFFFFFFFFFFFFFFF"),
        Err(Error::Parsing("#FFFFFFFFFFFFFFFFFFFF".to_string()))
    );
}

#[test]
fn lex_malformed_sign() {
    assert_eq!(Token::lex("1 -x 2"), Err(Error::Lexical("-x".to_string())));
    assert_eq!(Token::lex("-12x"), Err(Error::Lexical("-12x".to_string())));
    assert_eq!(
        Token::lex("-1x 99999999999999999999"),
        Err(Error::Lexical("-1x".to_string()))
    );
}

#[test]
fn classify_single_runs() {
    assert_eq!(Token::classify("print"), Ok(Token::Core(Core::Print)));
    assert_eq!(Token::classify("#Ab"), Ok(Token::Hex(171)));
    assert_eq!(Token::classify("def"), Ok(Token::Def));
}

#[test]
fn token_to_word() {
    assert_eq!(Word::from_token(Token::Def), Err(Error::Reserved));
    assert_eq!(Word::from_token(Token::Core(Core::Mul)), Ok(Word::Core(Core::Mul)));
    assert_eq!(Word::from_token(Token::Num(-4)), Ok(Word::Num(-4)));
    assert_eq!(Word::from_token(Token::Hex(16)), Ok(Word::Num(16)));
    assert_eq!(
        Word::from_token(Token::Custom("abc")),
        Ok(Word::Custom("abc".to_string()))
    );
}
