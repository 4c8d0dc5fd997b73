use drsm::{Core, Error, Token, Word};

#[test]
fn word_text() {
    assert_eq!(Word::Num(-42).text(), "-42");
    assert_eq!(Word::Num(0).text(), "0");
    assert_eq!(Word::Num(i64::MIN).text(), "-9223372036854775808");
    assert_eq!(Word::Num(i64::MAX).text(), "9223372036854775807");
    assert_eq!(Word::Core(Core::Zero).text(), "zero?");
    assert_eq!(Word::Custom("custom_x".to_string()).text(), "custom_x");
}

#[test]
fn word_round_trip() {
    let words = vec![
        Word::Core(Core::Drop),
        Word::Core(Core::Swap),
        Word::Core(Core::Dup),
        Word::Core(Core::Add),
        Word::Core(Core::Sub),
        Word::Core(Core::Mul),
        Word::Core(Core::Div),
        Word::Core(Core::Mod),
        Word::Core(Core::Zero),
        Word::Core(Core::Print),
        Word::Num(0),
        Word::Num(-1),
        Word::Num(1234567890),
        Word::Num(i64::MIN),
        Word::Num(i64::MAX),
        Word::Custom("custom_abc".to_string()),
    ];
    for w in words {
        let s = w.text();
        let ts = Token::lex(&s).unwrap();
        assert_eq!(ts.len(), 1);
        assert_eq!(Word::from_token(ts[0]), Ok(w));
    }
}

#[test]
fn into_name() {
    assert_eq!(
        Word::Custom("abc".to_string()).into_name(),
        Ok("abc".to_string())
    );
    assert_eq!(Word::Num(5).into_name(), Err(Error::NumNotName(5)));
    assert_eq!(
        Word::Core(Core::Swap).into_name(),
        Err(Error::CoreNotName("swap".to_string()))
    );
}

#[test]
fn core_names_and_arity() {
    assert_eq!(Core::Zero.name(), "zero?");
    assert_eq!(Core::Drop.arity(), 1);
    assert_eq!(Core::Mod.arity(), 2);
    assert_eq!(Core::Zero.arity(), 3);
}

#[test]
fn is_named() {
    assert!(Word::Custom("sq".to_string()).is_named("sq"));
    assert!(!Word::Custom("sq".to_string()).is_named("sqr"));
    assert!(!Word::Core(Core::Dup).is_named("dup"));
    assert!(!Word::Num(1).is_named("1"));
}
