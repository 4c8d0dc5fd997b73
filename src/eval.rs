use crate::env::{
    body_view, entries_map, lemma_entries_map_find, names_unique, table_entries, table_get,
};
use crate::error::{Error, Fault};
use crate::primitive::Core;
use crate::word::{word_text, Word, WordView};
use indexmap::IndexMap;
use vstd::prelude::*;

verus! {

/// What running a word, or a sequence of words, leaves behind: the stack,
/// every value printed so far, and the failure that stopped it, if any.
pub struct Outcome {
    pub stack: Seq<i64>,
    pub printed: Seq<i64>,
    pub fault: Option<Fault>,
}

/// The stack depth a word needs before it may run.
pub open spec fn arity(w: WordView) -> nat {
    match w {
        WordView::Core(c) => c.spec_arity(),
        _ => 0,
    }
}

/// Integer division rounding towards zero; the one quotient that does not fit,
/// the smallest integer divided by -1, wraps around to the smallest integer.
pub open spec fn quotient(a: i64, b: i64) -> i64 {
    let m = if a < 0 {
        -a
    } else {
        a as int
    };
    let d = if b < 0 {
        -b
    } else {
        b as int
    };
    let q = if (a < 0) != (b < 0) {
        -(m / d)
    } else {
        m / d
    };
    if q > i64::MAX {
        i64::MIN
    } else {
        q as i64
    }
}

/// Why a word may not run on this stack, if it may not: checked before any
/// change, so a word that fails its check changes nothing.
pub open spec fn precheck(env: Map<Seq<char>, Seq<WordView>>, stack: Seq<i64>, w: WordView) -> Option<
    Fault,
> {
    let n = stack.len();
    if n < arity(w) {
        Some(Fault::Small(word_text(w), arity(w), n))
    } else if (w == WordView::Core(Core::Div) || w == WordView::Core(Core::Mod)) && stack[n - 2]
        == 0 {
        Some(Fault::NotNonzero(word_text(w)))
    } else if w == WordView::Core(Core::Mod) && stack[n - 1] == i64::MIN && stack[n - 2] == -1 {
        Some(Fault::ModEdge)
    } else if w is Custom && !env.contains_key(w->Custom_0) {
        Some(Fault::Unknown(w->Custom_0))
    } else {
        None
    }
}

/// The stack after a core operation whose check passed, and what it printed.
///
/// With `a` on top and `b` below it: `sub` gives `a - b`, `div` `a / b` and
/// `mod` the non-negative remainder of `a` by `b`; `add`, `sub` and `mul` wrap
/// around on overflow. `zero?` keeps `b` when `a` is zero, else the third value.
pub open spec fn apply_core(c: Core, st: Seq<i64>) -> (Seq<i64>, Seq<i64>) {
    let n = st.len();
    let a = st[n - 1];
    let b = st[n - 2];
    let below = st.take(n - 2);
    match c {
        Core::Drop => (st.drop_last(), seq![]),
        Core::Swap => (below.push(a).push(b), seq![]),
        Core::Dup => (st.push(a), seq![]),
        Core::Add => (below.push(a.wrapping_add(b)), seq![]),
        Core::Sub => (below.push(a.wrapping_sub(b)), seq![]),
        Core::Mul => (below.push(a.wrapping_mul(b)), seq![]),
        Core::Div => (below.push(quotient(a, b)), seq![]),
        Core::Mod => (below.push((a % b) as i64), seq![]),
        Core::Zero => (
            st.take(n - 3).push(
                if a == 0 {
                    b
                } else {
                    st[n - 3]
                },
            ),
            seq![],
        ),
        Core::Print => (st.drop_last(), seq![a]),
    }
}

/// Runs one word: its check first, then its effect. A custom word runs its
/// body with one less level of nesting allowed; at none it fails.
pub open spec fn run(
    env: Map<Seq<char>, Seq<WordView>>,
    stack: Seq<i64>,
    printed: Seq<i64>,
    w: WordView,
    fuel: nat,
) -> Outcome
    decreases fuel, 0nat,
{
    match precheck(env, stack, w) {
        Some(f) => Outcome { stack, printed, fault: Some(f) },
        None => match w {
            WordView::Core(c) => {
                let (st, out) = apply_core(c, stack);
                Outcome { stack: st, printed: printed + out, fault: None }
            },
            WordView::Num(n) => Outcome { stack: stack.push(n), printed, fault: None },
            WordView::Custom(name) => if fuel == 0 {
                Outcome { stack, printed, fault: Some(Fault::TooDeep(name)) }
            } else {
                run_seq(env, stack, printed, env[name], (fuel - 1) as nat)
            },
        },
    }
}

/// Runs words in order, stopping at the first that fails.
pub open spec fn run_seq(
    env: Map<Seq<char>, Seq<WordView>>,
    stack: Seq<i64>,
    printed: Seq<i64>,
    ws: Seq<WordView>,
    fuel: nat,
) -> Outcome
    decreases fuel, ws.len(),
{
    if ws.len() == 0 {
        Outcome { stack, printed, fault: None }
    } else {
        let prev = run_seq(env, stack, printed, ws.drop_last(), fuel);
        if prev.fault is Some {
            prev
        } else {
            run(env, prev.stack, prev.printed, ws.last(), fuel)
        }
    }
}

/// Once a prefix of the words fails, the rest never runs.
pub proof fn lemma_run_seq_stops(
    env: Map<Seq<char>, Seq<WordView>>,
    stack: Seq<i64>,
    printed: Seq<i64>,
    ws: Seq<WordView>,
    k: int,
    fuel: nat,
)
    requires
        0 <= k <= ws.len(),
        run_seq(env, stack, printed, ws.take(k), fuel).fault is Some,
    ensures
        run_seq(env, stack, printed, ws, fuel) == run_seq(env, stack, printed, ws.take(k), fuel),
    decreases ws.len(),
{
    if k < ws.len() {
        assert(ws.drop_last().take(k) =~= ws.take(k));
        lemma_run_seq_stops(env, stack, printed, ws.drop_last(), k, fuel);
    } else {
        assert(ws.take(k) =~= ws);
    }
}

/// The check of a word against the definitions in `env` and the stack.
pub(crate) fn check_word(env: &IndexMap<String, Vec<Word>>, stack: &Vec<i64>, w: &Word) -> (r: Result<(), Error>)
    requires
        names_unique(table_entries(*env)),
    ensures
        r is Ok <==> precheck(entries_map(table_entries(*env)), stack@, w@) is None,
        r matches Err(e) ==> precheck(entries_map(table_entries(*env)), stack@, w@) == Some(e@),
{
    let n = stack.len();
    let need: usize = match w {
        Word::Core(c) => c.arity(),
        _ => 0,
    };
    if n < need {
        return Err(Error::Small(w.text(), need, n));
    }
    match w {
        Word::Core(Core::Div) | Word::Core(Core::Mod) => {
            if stack[n - 2] == 0 {
                return Err(Error::NotNonzero(w.text()));
            }
        },
        _ => {},
    }
    match w {
        Word::Core(Core::Mod) => {
            if stack[n - 1] == i64::MIN && stack[n - 2] == -1 {
                return Err(Error::ModEdge);
            }
        },
        _ => {},
    }
    match w {
        Word::Custom(name) => {
            let found = table_get(env, name.as_str());
            proof {
                lemma_entries_map_find(table_entries(*env), name@);
            }
            if found.is_none() {
                return Err(Error::Unknown(name.clone()));
            }
        },
        _ => {},
    }
    Ok(())
}

/// Applies a core operation whose check passed.
fn apply_core_exec(c: Core, stack: &mut Vec<i64>, printed: &mut Vec<i64>)
    requires
        precheck(Map::empty(), old(stack)@, WordView::Core(c)) is None,
    ensures
        final(stack)@ == apply_core(c, old(stack)@).0,
        final(printed)@ == old(printed)@ + apply_core(c, old(stack)@).1,
{
    let ghost st = old(stack)@;
    let ghost n = st.len();
    let a = stack.pop().unwrap();
    if let Core::Drop = c {
        assert(stack@ =~= apply_core(c, st).0);
        assert(printed@ =~= old(printed)@ + apply_core(c, st).1);
        return;
    }
    if let Core::Dup = c {
        stack.push(a);
        stack.push(a);
        assert(stack@ =~= apply_core(c, st).0);
        assert(printed@ =~= old(printed)@ + apply_core(c, st).1);
        return;
    }
    if let Core::Print = c {
        printed.push(a);
        assert(stack@ =~= apply_core(c, st).0);
        assert(printed@ =~= old(printed)@ + apply_core(c, st).1);
        return;
    }
    let b = stack.pop().unwrap();
    assert(stack@ =~= st.take(n - 2));
    match c {
        Core::Swap => {
            stack.push(a);
            stack.push(b);
        },
        Core::Add => stack.push(a.wrapping_add(b)),
        Core::Sub => stack.push(a.wrapping_sub(b)),
        Core::Mul => stack.push(a.wrapping_mul(b)),
        Core::Div => {
            let q = match a.checked_div(b) {
                Some(q) => q,
                None => i64::MIN,
            };
            stack.push(q);
        },
        Core::Mod => {
            let m = a.checked_rem_euclid(b).unwrap();
            stack.push(m);
        },
        _ => {
            let z = stack.pop().unwrap();
            assert(stack@ =~= st.take(n - 3));
            stack.push(if a == 0 { b } else { z });
        },
    }
    assert(stack@ =~= apply_core(c, st).0);
    assert(printed@ =~= old(printed)@ + apply_core(c, st).1);
}

/// Checks a word, then runs it: `fuel` bounds how deeply custom words may nest.
pub(crate) fn eval_word(
    env: &IndexMap<String, Vec<Word>>,
    stack: &mut Vec<i64>,
    printed: &mut Vec<i64>,
    w: &Word,
    fuel: usize,
) -> (r: Result<(), Error>)
    requires
        names_unique(table_entries(*env)),
    ensures
        ({
            let o = run(entries_map(table_entries(*env)), old(stack)@, old(printed)@, w@, fuel as nat);
            &&& final(stack)@ == o.stack
            &&& final(printed)@ == o.printed
            &&& (r is Ok <==> o.fault is None)
            &&& (r matches Err(e) ==> o.fault == Some(e@))
        }),
    decreases fuel,
{
    let ghost env_m = entries_map(table_entries(*env));
    match check_word(env, stack, w) {
        Err(e) => {
            return Err(e);
        },
        Ok(()) => {},
    }
    match w {
        Word::Core(c) => {
            apply_core_exec(*c, stack, printed);
            Ok(())
        },
        Word::Num(n) => {
            stack.push(*n);
            Ok(())
        },
        Word::Custom(name) => {
            if fuel == 0 {
                return Err(Error::TooDeep(name.clone()));
            }
            proof {
                lemma_entries_map_find(table_entries(*env), name@);
            }
            let body = match table_get(env, name.as_str()) {
                Some(b) => b,
                None => {
                    return Err(Error::Unknown(name.clone()));
                },
            };
            let ghost ws = body_view(body@);
            assert(ws == env_m[name@]);
            let ghost st0 = stack@;
            let ghost p0 = printed@;
            let ghost inner = (fuel - 1) as nat;
            assert(run(env_m, st0, p0, w@, fuel as nat) == run_seq(env_m, st0, p0, ws, inner));
            let mut i: usize = 0;
            assert(ws.take(0) =~= Seq::<WordView>::empty());
            while i < body.len()
                invariant
                    i <= body.len(),
                    ws == body_view(body@),
                    names_unique(table_entries(*env)),
                    env_m == entries_map(table_entries(*env)),
                    inner == fuel - 1,
                    fuel > 0,
                    st0 == old(stack)@,
                    p0 == old(printed)@,
                    run(env_m, st0, p0, w@, fuel as nat) == run_seq(env_m, st0, p0, ws, inner),
                    stack@ == run_seq(env_m, st0, p0, ws.take(i as int), inner).stack,
                    printed@ == run_seq(env_m, st0, p0, ws.take(i as int), inner).printed,
                    run_seq(env_m, st0, p0, ws.take(i as int), inner).fault is None,
                decreases body.len() - i,
            {
                assert(ws.take(i + 1).drop_last() =~= ws.take(i as int));
                assert(ws.take(i + 1).last() == body@[i as int]@);
                let ghost prev = run_seq(env_m, st0, p0, ws.take(i as int), inner);
                assert(run_seq(env_m, st0, p0, ws.take(i + 1), inner) == run(
                    env_m,
                    prev.stack,
                    prev.printed,
                    body@[i as int]@,
                    inner,
                ));
                match eval_word(env, stack, printed, &body[i], fuel - 1) {
                    Err(e) => {
                        proof {
                            lemma_run_seq_stops(env_m, st0, p0, ws, i + 1, inner);
                        }
                        return Err(e);
                    },
                    Ok(()) => {},
                }
                i = i + 1;
            }
            assert(ws.take(i as int) =~= ws);
            Ok(())
        },
    }
}

} // verus!
