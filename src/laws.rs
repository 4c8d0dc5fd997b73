use crate::error::Fault;
use crate::eval::{precheck, run};
use crate::machine::{after_line, MachineView};
use crate::primitive::Core;
use crate::token::{
    all_digits, chunks, classify, core_named, def_text, digit_value, digits_value, is_digit,
    is_space, lemma_chunks_split, lex, lex_chunks, TokenView,
};
use crate::word::{digit_char, int_text, nat_text, word_of, word_text, WordView};
use vstd::prelude::*;

verus! {

/// A word that names no existing definition runs without failure exactly
/// when its check passes: the check is its whole precondition. (A defined
/// custom word passes its check and may still fail inside its body.)
pub proof fn lemma_check_iff_run(
    env: Map<Seq<char>, Seq<WordView>>,
    stack: Seq<i64>,
    printed: Seq<i64>,
    w: WordView,
    fuel: nat,
)
    requires
        !(w is Custom && env.contains_key(w->Custom_0)),
    ensures
        precheck(env, stack, w) is None <==> run(env, stack, printed, w, fuel).fault is None,
{
}

/// A word whose check fails changes neither the stack nor what was printed.
pub proof fn lemma_failed_check_changes_nothing(
    env: Map<Seq<char>, Seq<WordView>>,
    stack: Seq<i64>,
    printed: Seq<i64>,
    w: WordView,
    fuel: nat,
)
    requires
        precheck(env, stack, w) is Some,
    ensures
        run(env, stack, printed, w, fuel).stack == stack,
        run(env, stack, printed, w, fuel).printed == printed,
        run(env, stack, printed, w, fuel).fault == precheck(env, stack, w),
{
}

/// Evaluating a line from equal machine states gives equal states and the
/// same failure, if any.
pub proof fn lemma_read_eval_deterministic(a: MachineView, b: MachineView, line: Seq<char>)
    requires
        a == b,
    ensures
        after_line(a, line) == after_line(b, line),
{
}

proof fn lemma_nat_text(m: nat)
    ensures
        nat_text(m).len() >= 1,
        all_digits(nat_text(m)),
        digits_value(nat_text(m), 10) == m,
    decreases m,
{
    if m < 10 {
        let s = nat_text(m);
        assert(s.drop_last() =~= Seq::<char>::empty());
        assert(digits_value(s.drop_last(), 10) == 0);
        assert(digit_value(digit_char(m as int)) == m);
        assert(s.last() == digit_char(m as int));
    } else {
        lemma_nat_text(m / 10);
        let init = nat_text(m / 10);
        let s = nat_text(m);
        assert(s.drop_last() =~= init);
        let d = (m % 10) as int;
        assert(digit_value(digit_char(d)) == d);
        assert(is_digit(digit_char(d)));
        assert((m / 10) * 10 + m % 10 == m) by (nonlinear_arith);
        assert(s.last() == digit_char(d));
        assert(digits_value(s, 10) == digits_value(init, 10) * 10 + digit_value(digit_char(d)));
        assert forall|i: int| 0 <= i < s.len() implies is_digit(#[trigger] s[i]) by {
            if i < init.len() {
                assert(s[i] == init[i]);
            }
        }
    }
}

/// A non-empty text without spaces lexes as its classification alone.
proof fn lemma_lex_single(s: Seq<char>)
    requires
        s.len() >= 1,
        forall|i: int| 0 <= i < s.len() ==> !is_space(#[trigger] s[i]),
    ensures
        lex(s) == match classify(s) {
            Ok(t) => Ok::<Seq<TokenView>, _>(seq![t]),
            Err(f) => Err(f),
        },
{
    lemma_chunks_split(s, s.len() as int);
    assert(s.take(s.len() as int) =~= s);
    assert(s.skip(s.len() as int) =~= Seq::<char>::empty());
    let cs = chunks(s);
    assert(cs =~= seq![s]);
    assert(cs.drop_first() =~= Seq::<Seq<char>>::empty());
    assert(lex_chunks(cs.drop_first()) == Ok::<Seq<TokenView>, Fault>(seq![]));
    match classify(s) {
        Ok(t) => {
            assert(seq![t] + Seq::<TokenView>::empty() =~= seq![t]);
        },
        Err(_) => {},
    }
}

/// No core spelling starts with a digit or a minus sign.
proof fn lemma_core_names_lead(c: Core)
    ensures
        !is_digit(c.spec_name()[0]),
        c.spec_name()[0] != '-',
        c.spec_name()[0] != '#',
        c.spec_name().len() >= 1,
{
}

/// Rendering a word as text and lexing that text gives exactly one token,
/// which converts back to the same word. A custom word must be spelled as a
/// lone custom token: non-empty, without spaces, and not read as anything else.
pub proof fn lemma_word_round_trip(w: WordView)
    requires
        w is Custom ==> {
            &&& w->Custom_0.len() >= 1
            &&& forall|i: int| 0 <= i < w->Custom_0.len() ==> !is_space(#[trigger] w->Custom_0[i])
            &&& classify(w->Custom_0) == Ok::<TokenView, Fault>(TokenView::Custom(w->Custom_0))
        },
    ensures
        lex(word_text(w)) is Ok,
        lex(word_text(w))->Ok_0.len() == 1,
        word_of(lex(word_text(w))->Ok_0[0]) == Ok::<WordView, Fault>(w),
{
    let s = word_text(w);
    match w {
        WordView::Core(c) => {
            lemma_core_names_lead(c);
            assert(def_text()[0] == 'd');
            assert(core_named(c.spec_name()) == Some(c));
            assert(s != def_text());
            assert(classify(s) == Ok::<TokenView, Fault>(TokenView::Core(c)));
            lemma_lex_single(s);
        },
        WordView::Num(n) => {
            assert(def_text()[0] == 'd');
            if n >= 0 {
                lemma_nat_text(n as nat);
                assert(is_digit(s[0]));
                assert(s != def_text());
                assert(core_named(s) is None) by {
                    lemma_core_names_lead(Core::Drop);
                    lemma_core_names_lead(Core::Swap);
                    lemma_core_names_lead(Core::Dup);
                    lemma_core_names_lead(Core::Add);
                    lemma_core_names_lead(Core::Sub);
                    lemma_core_names_lead(Core::Mul);
                    lemma_core_names_lead(Core::Div);
                    lemma_core_names_lead(Core::Mod);
                    lemma_core_names_lead(Core::Zero);
                    lemma_core_names_lead(Core::Print);
                }
                assert(classify(s) == Ok::<TokenView, Fault>(TokenView::Num(n)));
            } else {
                let m = (-n) as nat;
                lemma_nat_text(m);
                assert(s[0] == '-');
                assert(s.drop_first() =~= nat_text(m));
                assert(!is_digit(s[0]));
                assert(s != def_text());
                assert(core_named(s) is None) by {
                    lemma_core_names_lead(Core::Drop);
                    lemma_core_names_lead(Core::Swap);
                    lemma_core_names_lead(Core::Dup);
                    lemma_core_names_lead(Core::Add);
                    lemma_core_names_lead(Core::Sub);
                    lemma_core_names_lead(Core::Mul);
                    lemma_core_names_lead(Core::Div);
                    lemma_core_names_lead(Core::Mod);
                    lemma_core_names_lead(Core::Zero);
                    lemma_core_names_lead(Core::Print);
                }
                assert(!all_digits(s));
                assert(classify(s) == Ok::<TokenView, Fault>(TokenView::Num(n)));
            }
            assert forall|i: int| 0 <= i < s.len() implies !is_space(#[trigger] s[i]) by {
                if n < 0 && i > 0 {
                    assert(s[i] == s.drop_first()[i - 1]);
                }
            }
            lemma_lex_single(s);
        },
        WordView::Custom(name) => {
            lemma_lex_single(s);
        },
    }
}

} // verus!
