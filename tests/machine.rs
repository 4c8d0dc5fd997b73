use drsm::{Error, Machine, Word, DEFAULT_DEPTH_LIMIT};

#[test]
fn def_errs() {
    for s in [
        "def",
        "def name",
        "def def drop",
        "def drop body",
        "def name name",
    ] {
        assert!(Machine::default().read_eval(s).is_err());
    }
}

#[test]
fn num_errs() {
    for s in ["0 1 div", "0 1 mod", "-1 -9223372036854775808 mod"] {
        assert!(Machine::default().read_eval(s).is_err());
    }
}

#[test]
fn def_errors_are_specific() {
    let mut m = Machine::default();
    assert_eq!(m.read_eval("def"), Err(Error::DefName));
    assert_eq!(m.read_eval("def name"), Err(Error::DefBody));
    assert_eq!(m.read_eval("def def drop"), Err(Error::Reserved));
    assert_eq!(
        m.read_eval("def drop body"),
        Err(Error::CoreNotName("drop".to_string()))
    );
    assert_eq!(m.read_eval("def 12 body"), Err(Error::NumNotName(12)));
    assert_eq!(m.read_eval("def #1f body"), Err(Error::NumNotName(31)));
    assert_eq!(
        m.read_eval("def name name"),
        Err(Error::SelfRef("name".to_string()))
    );
    assert_eq!(m.read_eval("def name x def"), Err(Error::Reserved));
    assert_eq!(m.read_eval("def name 1 -q"), Err(Error::Lexical("-q".to_string())));
    assert!(m.names().is_empty());
    assert!(m.stack().is_empty());
}

#[test]
fn self_reference_rejected() {
    let mut m = Machine::default();
    assert_eq!(
        m.read_eval("def loop loop"),
        Err(Error::SelfRef("loop".to_string()))
    );
    assert!(m.names().is_empty());
    assert_eq!(m.lookup("loop"), None);
}

#[test]
fn underflow_protection() {
    let mut m = Machine::default();
    assert_eq!(
        m.read_eval("add"),
        Err(Error::Small("add".to_string(), 2, 0))
    );
    assert!(m.stack().is_empty());
}

#[test]
fn zero_divisor_protection() {
    // The divisor is the second value from the top: `0 5 div` divides 5 by 0.
    let mut m = Machine::default();
    assert_eq!(
        m.read_eval("0 5 div"),
        Err(Error::NotNonzero("div".to_string()))
    );
    assert_eq!(m.stack(), &vec![0, 5]);
    let mut m = Machine::default();
    assert_eq!(
        m.read_eval("0 5 mod"),
        Err(Error::NotNonzero("mod".to_string()))
    );
    assert_eq!(m.stack(), &vec![0, 5]);
}

#[test]
fn five_zero_div_divides_zero_by_five() {
    let mut m = Machine::default();
    assert_eq!(m.read_eval("5 0 div"), Ok(()));
    assert_eq!(m.stack(), &vec![0]);
}

#[test]
fn scenario_add() {
    let mut m = Machine::default();
    assert_eq!(m.read_eval("1 2 add"), Ok(()));
    assert_eq!(m.stack(), &vec![3]);
}

#[test]
fn scenario_square() {
    let mut m = Machine::default();
    assert_eq!(m.read_eval("def sq dup mul"), Ok(()));
    assert!(m.stack().is_empty());
    assert_eq!(m.read_eval("4 sq"), Ok(()));
    assert_eq!(m.stack(), &vec![16]);
}

#[test]
fn scenario_zero_select() {
    let mut m = Machine::default();
    assert_eq!(m.read_eval("10 20 0 zero?"), Ok(()));
    assert_eq!(m.stack(), &vec![20]);
    let mut m = Machine::default();
    assert_eq!(m.read_eval("10 20 7 zero?"), Ok(()));
    assert_eq!(m.stack(), &vec![10]);
}

#[test]
fn scenario_rec_never_defined() {
    let mut m = Machine::default();
    assert_eq!(
        m.read_eval("def rec rec"),
        Err(Error::SelfRef("rec".to_string()))
    );
    assert_eq!(m.read_eval("rec"), Err(Error::Unknown("rec".to_string())));
    assert!(m.stack().is_empty());
}

#[test]
fn scenario_body_inherits_arity() {
    let mut m = Machine::default();
    assert_eq!(m.read_eval("def inc add"), Ok(()));
    assert_eq!(
        m.read_eval("7 inc"),
        Err(Error::Small("add".to_string(), 2, 1))
    );
    assert_eq!(m.stack(), &vec![7]);
}

#[test]
fn arithmetic_wraps() {
    let mut m = Machine::default();
    assert_eq!(m.read_eval("1 9223372036854775807 add"), Ok(()));
    assert_eq!(m.stack(), &vec![i64::MIN]);
    let mut m = Machine::default();
    assert_eq!(m.read_eval("1 -9223372036854775808 sub"), Ok(()));
    assert_eq!(m.stack(), &vec![i64::MAX]);
    let mut m = Machine::default();
    assert_eq!(m.read_eval("2 9223372036854775807 mul"), Ok(()));
    assert_eq!(m.stack(), &vec![-2]);
    let mut m = Machine::default();
    assert_eq!(m.read_eval("-1 -9223372036854775808 div"), Ok(()));
    assert_eq!(m.stack(), &vec![i64::MIN]);
}

#[test]
fn operand_order() {
    let mut m = Machine::default();
    assert_eq!(m.read_eval("1 5 sub"), Ok(()));
    assert_eq!(m.stack(), &vec![4]);
    let mut m = Machine::default();
    assert_eq!(m.read_eval("2 7 div"), Ok(()));
    assert_eq!(m.stack(), &vec![3]);
    let mut m = Machine::default();
    assert_eq!(m.read_eval("2 -7 div"), Ok(()));
    assert_eq!(m.stack(), &vec![-3]);
    let mut m = Machine::default();
    assert_eq!(m.read_eval("3 -7 mod"), Ok(()));
    assert_eq!(m.stack(), &vec![2]);
    let mut m = Machine::default();
    assert_eq!(m.read_eval("-3 7 mod"), Ok(()));
    assert_eq!(m.stack(), &vec![1]);
    let mut m = Machine::default();
    assert_eq!(m.read_eval("1 2 swap"), Ok(()));
    assert_eq!(m.stack(), &vec![2, 1]);
    let mut m = Machine::default();
    assert_eq!(m.read_eval("1 2 drop dup"), Ok(()));
    assert_eq!(m.stack(), &vec![1, 1]);
}

#[test]
fn mod_edge_rejected() {
    let mut m = Machine::default();
    assert_eq!(
        m.read_eval("-1 -9223372036854775808 mod"),
        Err(Error::ModEdge)
    );
    assert_eq!(m.stack(), &vec![-1, i64::MIN]);
}

#[test]
fn print_hands_values_over() {
    let mut m = Machine::default();
    assert_eq!(m.read_eval("4 5 print 6 print"), Ok(()));
    assert_eq!(m.stack(), &vec![4]);
    assert_eq!(m.take_printed(), vec![5, 6]);
    assert!(m.take_printed().is_empty());
    assert_eq!(
        m.read_eval("print print"),
        Err(Error::Small("print".to_string(), 1, 0))
    );
    assert_eq!(m.take_printed(), vec![4]);
}

#[test]
fn failure_keeps_earlier_effects() {
    let mut m = Machine::default();
    assert_eq!(
        m.read_eval("1 2 add nope 5"),
        Err(Error::Unknown("nope".to_string()))
    );
    assert_eq!(m.stack(), &vec![3]);
    assert_eq!(m.read_eval("1 def"), Err(Error::Reserved));
    assert_eq!(m.stack(), &vec![3, 1]);
}

#[test]
fn lexing_failure_changes_nothing() {
    let mut m = Machine::default();
    assert_eq!(
        m.read_eval("1 2 9223372036854775808"),
        Err(Error::Parsing("9223372036854775808".to_string()))
    );
    assert!(m.stack().is_empty());
}

#[test]
fn nesting_is_bounded() {
    let mut m = Machine::default();
    assert_eq!(m.read_eval("def a b"), Ok(()));
    assert_eq!(m.read_eval("def b a"), Ok(()));
    assert_eq!(m.read_eval("a"), Err(Error::TooDeep("a".to_string())));
    let mut m = Machine::with_depth_limit(2);
    assert_eq!(m.read_eval("def one 1"), Ok(()));
    assert_eq!(m.read_eval("def two one"), Ok(()));
    assert_eq!(m.read_eval("def three two"), Ok(()));
    assert_eq!(m.read_eval("two"), Ok(()));
    assert_eq!(m.stack(), &vec![1]);
    assert_eq!(m.read_eval("three"), Err(Error::TooDeep("one".to_string())));
    assert!(DEFAULT_DEPTH_LIMIT > 0);
}

#[test]
fn redefinition_replaces_and_keeps_place() {
    let mut m = Machine::default();
    assert_eq!(m.read_eval("def x 1"), Ok(()));
    assert_eq!(m.read_eval("def y 2"), Ok(()));
    assert_eq!(m.read_eval("def x 3 4 add"), Ok(()));
    assert_eq!(m.names(), vec!["x".to_string(), "y".to_string()]);
    assert_eq!(m.lookup("x"), Some("3 4 add".to_string()));
    assert_eq!(m.lookup("y"), Some("2".to_string()));
    assert_eq!(m.lookup("z"), None);
    assert_eq!(m.read_eval("x"), Ok(()));
    assert_eq!(m.stack(), &vec![7]);
}

#[test]
fn lookup_renders_body() {
    let mut m = Machine::default();
    assert_eq!(m.read_eval("def f #10 -3 zero? swap custom_w"), Ok(()));
    assert_eq!(m.lookup("f"), Some("16 -3 zero? swap custom_w".to_string()));
}

#[test]
fn render_shows_machine() {
    let mut m = Machine::default();
    assert_eq!(m.read_eval("def sq dup mul"), Ok(()));
    assert_eq!(m.read_eval("def inc 1 add"), Ok(()));
    assert_eq!(m.read_eval("1 -2 3"), Ok(()));
    assert_eq!(
        m.render(),
        "core: drop swap dup add sub mul div mod zero? print\nenv: sq inc\nstack: [ 3 -2 1 ]"
    );
    assert_eq!(
        Machine::default().render(),
        "core: drop swap dup add sub mul div mod zero? print\nenv:\nstack: [ ]"
    );
}

#[test]
fn check_matches_eval() {
    let words = [
        Word::Num(0),
        Word::Core(drsm::Core::Div),
        Word::Num(3),
        Word::Core(drsm::Core::Mod),
        Word::Custom("missing".to_string()),
        Word::Core(drsm::Core::Zero),
        Word::Num(0),
        Word::Num(2),
        Word::Core(drsm::Core::Div),
        Word::Core(drsm::Core::Print),
        Word::Core(drsm::Core::Drop),
    ];
    let mut m = Machine::default();
    for w in words.iter() {
        let checked = m.check(w).is_ok();
        assert_eq!(checked, m.eval(w).is_ok());
    }
}

#[test]
fn check_passes_but_body_fails() {
    let mut m = Machine::default();
    assert_eq!(m.read_eval("def inc add"), Ok(()));
    let w = Word::Custom("inc".to_string());
    assert_eq!(m.check(&w), Ok(()));
    assert_eq!(m.eval(&w), Err(Error::Small("add".to_string(), 2, 0)));
}

#[test]
fn same_line_same_result() {
    let mut a = Machine::default();
    let mut b = Machine::default();
    for line in ["def f 3 mul 1 swap sub", "5 f 7 f mul", "9 0 mod"] {
        assert_eq!(a.read_eval(line), b.read_eval(line));
        assert_eq!(a.stack(), b.stack());
    }
    assert_eq!(a.stack(), &vec![280, 0]);
}

#[test]
fn unicode_whitespace_separates() {
    let mut m = Machine::default();
    assert_eq!(m.read_eval("\t1\u{3000}2\u{a0}add \n"), Ok(()));
    assert_eq!(m.stack(), &vec![3]);
}
