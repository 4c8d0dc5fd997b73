use crate::env::{
    body_view, entries_map, insert_entry, lemma_entries_map_find, lemma_insert_entry, names_unique,
    table_entries, table_get, table_insert, table_len, table_name_at, table_new,
};
use crate::primitive::Core;
use crate::error::{Error, Fault};
use crate::eval::{check_word, eval_word, lemma_run_seq_stops, precheck, run, Outcome};
use crate::token::{def_text, lemma_lex_customs, lex, tokens_view, Token, TokenView};
use crate::word::{int_text, name_of, push_int, word_of, word_text, Word, WordView};
use vstd::string::StringExecFns;
use indexmap::IndexMap;
use vstd::prelude::*;

verus! {

/// How deeply custom words may nest in a new machine.
pub const DEFAULT_DEPTH_LIMIT: usize = 256;

/// The words of a sequence of tokens, or the first token that is no word.
pub open spec fn words_of(ts: Seq<TokenView>) -> Result<Seq<WordView>, Fault>
    decreases ts.len(),
{
    if ts.len() == 0 {
        Ok(seq![])
    } else {
        match words_of(ts.drop_last()) {
            Err(f) => Err(f),
            Ok(ws) => match word_of(ts.last()) {
                Err(f) => Err(f),
                Ok(w) => Ok(ws.push(w)),
            },
        }
    }
}

/// The definitions after `def` followed by the tokens `ts`, or why the
/// definition is refused: no name, a name that is no custom word, a token of
/// the body that is no word, an empty body, or a body that names itself.
pub open spec fn define(es: Seq<(Seq<char>, Seq<WordView>)>, ts: Seq<TokenView>) -> Result<
    Seq<(Seq<char>, Seq<WordView>)>,
    Fault,
> {
    if ts.len() == 0 {
        Err(Fault::DefName)
    } else {
        match word_of(ts[0]) {
            Err(f) => Err(f),
            Ok(w) => match name_of(w) {
                Err(f) => Err(f),
                Ok(name) => match words_of(ts.drop_first()) {
                    Err(f) => Err(f),
                    Ok(body) => if body.len() == 0 {
                        Err(Fault::DefBody)
                    } else if body.contains(WordView::Custom(name)) {
                        Err(Fault::SelfRef(name))
                    } else {
                        Ok(insert_entry(es, name, body))
                    },
                },
            },
        }
    }
}

/// Runs the tokens of a line in order: each becomes a word and runs, and the
/// first token that is no word, or word that fails, stops the line there.
pub open spec fn run_tokens(
    env: Map<Seq<char>, Seq<WordView>>,
    stack: Seq<i64>,
    printed: Seq<i64>,
    ts: Seq<TokenView>,
    fuel: nat,
) -> Outcome
    decreases ts.len(),
{
    if ts.len() == 0 {
        Outcome { stack, printed, fault: None }
    } else {
        let prev = run_tokens(env, stack, printed, ts.drop_last(), fuel);
        if prev.fault is Some {
            prev
        } else {
            match word_of(ts.last()) {
                Err(f) => Outcome { stack: prev.stack, printed: prev.printed, fault: Some(f) },
                Ok(w) => run(env, prev.stack, prev.printed, w, fuel),
            }
        }
    }
}

/// The state of a machine: its definitions in the order they were first
/// made, its stack (top last), what it has printed, and how deeply custom
/// words may nest.
pub struct MachineView {
    pub entries: Seq<(Seq<char>, Seq<WordView>)>,
    pub stack: Seq<i64>,
    pub printed: Seq<i64>,
    pub depth: nat,
}

impl MachineView {
    /// The definitions, from name to body.
    pub open spec fn env(self) -> Map<Seq<char>, Seq<WordView>> {
        entries_map(self.entries)
    }

    /// The defined names, in the order they were first defined.
    pub open spec fn names(self) -> Seq<Seq<char>> {
        self.entries.map_values(|e: (Seq<char>, Seq<WordView>)| e.0)
    }
}

/// What reading and evaluating one line does to a machine, and the failure
/// that stopped it, if any. A line that starts with `def` is a definition and
/// changes only the definitions; any other line changes only the stack and
/// what was printed. A line that fails to lex changes nothing.
pub open spec fn after_line(m: MachineView, line: Seq<char>) -> (MachineView, Option<Fault>) {
    match lex(line) {
        Err(f) => (m, Some(f)),
        Ok(ts) => if ts.len() > 0 && ts[0] is Def {
            match define(m.entries, ts.drop_first()) {
                Err(f) => (m, Some(f)),
                Ok(es) => (MachineView { entries: es, ..m }, None),
            }
        } else {
            let o = run_tokens(m.env(), m.stack, m.printed, ts, m.depth);
            (MachineView { stack: o.stack, printed: o.printed, ..m }, o.fault)
        },
    }
}

/// The texts of a sequence of strings.
pub open spec fn texts(v: Seq<String>) -> Seq<Seq<char>> {
    v.map_values(|k: String| k@)
}

/// The texts of words, separated by single spaces.
pub open spec fn joined(ws: Seq<WordView>) -> Seq<char>
    decreases ws.len(),
{
    if ws.len() == 0 {
        seq![]
    } else if ws.len() == 1 {
        word_text(ws[0])
    } else {
        joined(ws.drop_last()) + seq![' '] + word_text(ws.last())
    }
}

/// Each item preceded by a space.
pub open spec fn spaced(items: Seq<Seq<char>>) -> Seq<char>
    decreases items.len(),
{
    if items.len() == 0 {
        seq![]
    } else {
        spaced(items.drop_last()) + seq![' '] + items.last()
    }
}

/// The spellings of all core operations.
pub open spec fn core_names() -> Seq<Seq<char>> {
    seq![
        Core::Drop.spec_name(),
        Core::Swap.spec_name(),
        Core::Dup.spec_name(),
        Core::Add.spec_name(),
        Core::Sub.spec_name(),
        Core::Mul.spec_name(),
        Core::Div.spec_name(),
        Core::Mod.spec_name(),
        Core::Zero.spec_name(),
        Core::Print.spec_name(),
    ]
}

/// A three-line picture of a machine: the core operations, the defined
/// names in order of definition, and the stack from top to bottom.
pub open spec fn picture(m: MachineView) -> Seq<char> {
    seq!['c', 'o', 'r', 'e', ':'] + spaced(core_names()) + seq!['\n', 'e', 'n', 'v', ':'] + spaced(
        m.names(),
    ) + seq!['\n', 's', 't', 'a', 'c', 'k', ':', ' ', '['] + spaced(
        m.stack.reverse().map_values(|n: i64| int_text(n as int)),
    ) + seq![' ', ']']
}

/// What the definitions of a well-formed machine satisfy: names are unique,
/// never the definition keyword, and each body is non-empty and does not
/// name its own definition.
pub open spec fn entries_ok(es: Seq<(Seq<char>, Seq<WordView>)>) -> bool {
    &&& names_unique(es)
    &&& forall|i: int|
        0 <= i < es.len() ==> {
            &&& (#[trigger] es[i]).0 != def_text()
            &&& es[i].1.len() > 0
            &&& !es[i].1.contains(WordView::Custom(es[i].0))
        }
}

/// The main data structure: a stack machine with an environment of local definitions.
#[derive(Debug)]
pub struct Machine {
    env: IndexMap<String, Vec<Word>>,
    stack: Vec<i64>,
    printed: Vec<i64>,
    depth: usize,
}

impl View for Machine {
    type V = MachineView;

    closed spec fn view(&self) -> MachineView {
        MachineView {
            entries: table_entries(self.env),
            stack: self.stack@,
            printed: self.printed@,
            depth: self.depth as nat,
        }
    }
}

/// Once a prefix of a line fails, the rest of the line never runs.
pub proof fn lemma_run_tokens_stops(
    env: Map<Seq<char>, Seq<WordView>>,
    stack: Seq<i64>,
    printed: Seq<i64>,
    ts: Seq<TokenView>,
    k: int,
    fuel: nat,
)
    requires
        0 <= k <= ts.len(),
        run_tokens(env, stack, printed, ts.take(k), fuel).fault is Some,
    ensures
        run_tokens(env, stack, printed, ts, fuel) == run_tokens(env, stack, printed, ts.take(k), fuel),
    decreases ts.len(),
{
    if k < ts.len() {
        assert(ts.drop_last().take(k) =~= ts.take(k));
        lemma_run_tokens_stops(env, stack, printed, ts.drop_last(), k, fuel);
    } else {
        assert(ts.take(k) =~= ts);
    }
}

/// Once a prefix of the tokens is no word, the first such token decides.
pub proof fn lemma_words_of_stops(ts: Seq<TokenView>, k: int)
    requires
        0 <= k <= ts.len(),
        words_of(ts.take(k)) is Err,
    ensures
        words_of(ts) == words_of(ts.take(k)),
    decreases ts.len(),
{
    if k < ts.len() {
        assert(ts.drop_last().take(k) =~= ts.take(k));
        lemma_words_of_stops(ts.drop_last(), k);
    } else {
        assert(ts.take(k) =~= ts);
    }
}

/// Defining a name with a valid body keeps the definitions well formed.
proof fn lemma_insert_entry_ok(es: Seq<(Seq<char>, Seq<WordView>)>, k: Seq<char>, v: Seq<WordView>)
    requires
        entries_ok(es),
        k != def_text(),
        v.len() > 0,
        !v.contains(WordView::Custom(k)),
    ensures
        entries_ok(insert_entry(es, k, v)),
        entries_map(insert_entry(es, k, v)) == entries_map(es).insert(k, v),
{
    lemma_insert_entry(es, k, v);
    let after = insert_entry(es, k, v);
    assert forall|i: int| 0 <= i < after.len() implies {
        &&& (#[trigger] after[i]).0 != def_text()
        &&& after[i].1.len() > 0
        &&& !after[i].1.contains(WordView::Custom(after[i].0))
    } by {
        if i < es.len() && after[i] != es[i] {
            assert(after[i] == (k, v));
        }
        if i >= es.len() {
            assert(after[i] == (k, v));
        }
    }
}

/// One more item adds a space and the item.
proof fn lemma_spaced_push(items: Seq<Seq<char>>, x: Seq<char>)
    ensures
        spaced(items.push(x)) == spaced(items) + seq![' '] + x,
{
    assert(items.push(x).drop_last() =~= items);
}

fn push_spaced_core(out: &mut String, c: Core)
    ensures
        final(out)@ == old(out)@ + seq![' '] + c.spec_name(),
{
    proof {
        reveal_strlit(" ");
    }
    out.append(" ");
    out.append(c.name());
}

/// Appends the spellings of all core operations, each after a space.
fn push_core_names(out: &mut String)
    ensures
        final(out)@ == old(out)@ + spaced(core_names()),
{
    let ghost s0 = out@;
    let ghost e = Seq::<Seq<char>>::empty();
    push_spaced_core(out, Core::Drop);
    push_spaced_core(out, Core::Swap);
    push_spaced_core(out, Core::Dup);
    push_spaced_core(out, Core::Add);
    push_spaced_core(out, Core::Sub);
    push_spaced_core(out, Core::Mul);
    push_spaced_core(out, Core::Div);
    push_spaced_core(out, Core::Mod);
    push_spaced_core(out, Core::Zero);
    push_spaced_core(out, Core::Print);
    proof {
        let n1 = e.push(Core::Drop.spec_name());
        let n2 = n1.push(Core::Swap.spec_name());
        let n3 = n2.push(Core::Dup.spec_name());
        let n4 = n3.push(Core::Add.spec_name());
        let n5 = n4.push(Core::Sub.spec_name());
        let n6 = n5.push(Core::Mul.spec_name());
        let n7 = n6.push(Core::Div.spec_name());
        let n8 = n7.push(Core::Mod.spec_name());
        let n9 = n8.push(Core::Zero.spec_name());
        let n10 = n9.push(Core::Print.spec_name());
        lemma_spaced_push(e, Core::Drop.spec_name());
        lemma_spaced_push(n1, Core::Swap.spec_name());
        lemma_spaced_push(n2, Core::Dup.spec_name());
        lemma_spaced_push(n3, Core::Add.spec_name());
        lemma_spaced_push(n4, Core::Sub.spec_name());
        lemma_spaced_push(n5, Core::Mul.spec_name());
        lemma_spaced_push(n6, Core::Div.spec_name());
        lemma_spaced_push(n7, Core::Mod.spec_name());
        lemma_spaced_push(n8, Core::Zero.spec_name());
        lemma_spaced_push(n9, Core::Print.spec_name());
        assert(n10 =~= core_names());
        assert(out@ =~= s0 + spaced(core_names()));
    }
}

impl Machine {
    /// The invariant every machine keeps.
    pub closed spec fn wf(&self) -> bool {
        entries_ok(table_entries(self.env))
    }

    /// A machine with no definitions, an empty stack, and the given limit on
    /// how deeply custom words may nest.
    pub fn with_depth_limit(depth: usize) -> (r: Machine)
        ensures
            r.wf(),
            r@ == (MachineView { entries: seq![], stack: seq![], printed: seq![], depth: depth as nat }),
    {
        let r = Machine { env: table_new(), stack: Vec::new(), printed: Vec::new(), depth };
        assert(r@.stack =~= seq![]);
        assert(r@.printed =~= seq![]);
        r
    }

    /// The current stack, top last.
    pub fn stack(&self) -> (r: &Vec<i64>)
        ensures
            r@ == self@.stack,
    {
        &self.stack
    }

    /// Hands over the values printed since the last call, oldest first.
    pub fn take_printed(&mut self) -> (r: Vec<i64>)
        ensures
            r@ == old(self)@.printed,
            final(self)@ == (MachineView { printed: seq![], ..old(self)@ }),
            final(self).wf() == old(self).wf(),
    {
        let mut out: Vec<i64> = Vec::new();
        std::mem::swap(&mut out, &mut self.printed);
        assert(self@.printed =~= seq![]);
        out
    }

    /// The body of the definition named `s`, as text, if there is one.
    pub fn lookup(&self, s: &str) -> (r: Option<String>)
        requires
            self.wf(),
        ensures
            r is Some <==> self@.env().contains_key(s@),
            r matches Some(t) ==> t@ == joined(self@.env()[s@]),
    {
        proof {
            lemma_entries_map_find(table_entries(self.env), s@);
        }
        match table_get(&self.env, s) {
            None => None,
            Some(body) => {
                let ghost ws = body_view(body@);
                let mut out = String::new();
                let mut i: usize = 0;
                proof {
                    reveal_strlit(" ");
                }
                assert(ws.take(0) =~= Seq::<WordView>::empty());
                while i < body.len()
                    invariant
                        i <= body.len(),
                        ws == body_view(body@),
                        out@ == joined(ws.take(i as int)),
                        " "@ == seq![' '],
                    decreases body.len() - i,
                {
                    assert(ws.take(i + 1).drop_last() =~= ws.take(i as int));
                    if i > 0 {
                        out.append(" ");
                    }
                    body[i].push_text(&mut out);
                    assert(out@ =~= joined(ws.take(i + 1)));
                    i = i + 1;
                }
                assert(ws.take(i as int) =~= ws);
                Some(out)
            },
        }
    }

    /// The defined names, in the order they were first defined.
    pub fn names(&self) -> (r: Vec<String>)
        ensures
            texts(r@) == self@.names(),
    {
        let n = table_len(&self.env);
        let mut r: Vec<String> = Vec::new();
        let mut i: usize = 0;
        while i < n
            invariant
                i <= n,
                n == self@.entries.len(),
                texts(r@) == self@.names().take(i as int),
            decreases n - i,
        {
            let ghost before = r@;
            assert(i < table_entries(self.env).len());
            assert(texts(before).len() == i);
            match table_name_at(&self.env, i) {
                Some(k) => {
                    r.push(k.clone());
                    assert(r@ == before.push(*k));
                },
                None => {},
            }
            assert(self@.names()[i as int] == self@.entries[i as int].0);
            assert(texts(r@).len() == i + 1);
            assert(texts(r@)[i as int] == self@.names()[i as int]);
            assert(texts(r@) =~= self@.names().take(i + 1));
            i = i + 1;
        }
        assert(self@.names().take(n as int) =~= self@.names());
        r
    }

    /// A three-line picture of the machine: the core operations, the defined
    /// names, and the stack from top to bottom.
    pub fn render(&self) -> (r: String)
        ensures
            r@ == picture(self@),
    {
        let mut out = String::new();
        proof {
            reveal_strlit("core:");
            reveal_strlit("\nenv:");
            reveal_strlit("\nstack: [");
            reveal_strlit(" ]");
            reveal_strlit(" ");
        }
        out.append("core:");
        push_core_names(&mut out);
        out.append("\nenv:");
        let n = table_len(&self.env);
        let mut i: usize = 0;
        let ghost names = self@.names();
        let ghost head = out@;
        assert(names.take(0) =~= Seq::<Seq<char>>::empty());
        assert(out@ =~= head + spaced(names.take(0)));
        while i < n
            invariant
                i <= n,
                n == names.len(),
                names == self@.names(),
                out@ == head + spaced(names.take(i as int)),
                " "@ == seq![' '],
            decreases n - i,
        {
            match table_name_at(&self.env, i) {
                Some(k) => {
                    out.append(" ");
                    out.append(k.as_str());
                },
                None => {},
            }
            assert(names.take(i + 1).drop_last() =~= names.take(i as int));
            assert(out@ =~= head + spaced(names.take(i + 1)));
            i = i + 1;
        }
        assert(names.take(n as int) =~= names);
        out.append("\nstack: [");
        let ghost nums = self@.stack.reverse().map_values(|n: i64| int_text(n as int));
        let ghost head2 = out@;
        let m = self.stack.len();
        let mut j: usize = 0;
        assert(nums.take(0) =~= Seq::<Seq<char>>::empty());
        assert(out@ =~= head2 + spaced(nums.take(0)));
        while j < m
            invariant
                j <= m,
                m == self.stack@.len(),
                nums == self@.stack.reverse().map_values(|n: i64| int_text(n as int)),
                out@ == head2 + spaced(nums.take(j as int)),
                " "@ == seq![' '],
            decreases m - j,
        {
            out.append(" ");
            push_int(&mut out, self.stack[m - 1 - j]);
            assert(nums[j as int] == int_text(self.stack@[m - 1 - j] as int));
            assert(nums.take(j + 1).drop_last() =~= nums.take(j as int));
            assert(out@ =~= head2 + spaced(nums.take(j + 1)));
            j = j + 1;
        }
        assert(nums.take(m as int) =~= nums);
        out.append(" ]");
        assert(out@ =~= picture(self@));
        out
    }

    /// Whether `w` may run now: the stack is deep enough, a divisor is not
    /// zero, a remainder is in range, and a custom word is defined.
    pub fn check(&self, w: &Word) -> (r: Result<(), Error>)
        requires
            self.wf(),
        ensures
            r is Ok <==> precheck(self@.env(), self@.stack, w@) is None,
            r matches Err(e) ==> precheck(self@.env(), self@.stack, w@) == Some(e@),
    {
        check_word(&self.env, &self.stack, w)
    }

    /// Checks `w`, then runs it.
    pub fn eval(&mut self, w: &Word) -> (r: Result<(), Error>)
        requires
            old(self).wf(),
        ensures
            final(self).wf(),
            ({
                let o = run(old(self)@.env(), old(self)@.stack, old(self)@.printed, w@, old(self)@.depth);
                &&& final(self)@ == (MachineView { stack: o.stack, printed: o.printed, ..old(self)@ })
                &&& (r is Ok <==> o.fault is None)
                &&& (r matches Err(e) ==> o.fault == Some(e@))
            }),
    {
        eval_word(&self.env, &mut self.stack, &mut self.printed, w, self.depth)
    }

    /// Handles a line whose first token is `def`.
    fn define(&mut self, toks: &Vec<Token>) -> (r: Result<(), Error>)
        requires
            old(self).wf(),
            toks@.len() > 0,
            toks@[0] is Def,
            forall|i: int|
                0 <= i < toks@.len() && (#[trigger] toks@[i]) is Custom ==> toks@[i]@->Custom_0
                    != def_text(),
        ensures
            final(self).wf(),
            r is Ok <==> define(old(self)@.entries, tokens_view(toks@).drop_first()) is Ok,
            r matches Err(e) ==> define(old(self)@.entries, tokens_view(toks@).drop_first())
                == Err::<Seq<(Seq<char>, Seq<WordView>)>, Fault>(e@) && final(self)@ == old(self)@,
            r is Ok ==> final(self)@ == (MachineView {
                entries: define(old(self)@.entries, tokens_view(toks@).drop_first())->Ok_0,
                ..old(self)@
            }),
    {
        let ghost ts = tokens_view(toks@).drop_first();
        let n = toks.len();
        if n < 2 {
            return Err(Error::DefName);
        }
        assert(ts[0] == toks@[1]@);
        let w = match Word::from_token(toks[1]) {
            Err(e) => {
                return Err(e);
            },
            Ok(w) => w,
        };
        let ghost wv = w@;
        let name = match w.into_name() {
            Err(e) => {
                return Err(e);
            },
            Ok(s) => s,
        };
        let ghost head_ok = word_of(ts[0]) == Ok::<WordView, Fault>(wv) && name_of(wv) == Ok::<
            Seq<char>,
            Fault,
        >(name@);
        assert(head_ok);
        let ghost rest = ts.drop_first();
        let mut body: Vec<Word> = Vec::new();
        let mut i: usize = 2;
        assert(rest.take(0) =~= Seq::<TokenView>::empty());
        assert(body_view(body@) =~= Seq::<WordView>::empty());
        while i < n
            invariant
                2 <= i <= n,
                n == toks@.len(),
                rest == tokens_view(toks@).drop_first().drop_first(),
                words_of(rest.take(i - 2)) == Ok::<Seq<WordView>, Fault>(body_view(body@)),
                self.wf(),
                self@ == old(self)@,
                ts == tokens_view(toks@).drop_first(),
                ts.len() > 0,
                rest == ts.drop_first(),
                head_ok,
                head_ok == (word_of(ts[0]) == Ok::<WordView, Fault>(wv) && name_of(wv) == Ok::<
                    Seq<char>,
                    Fault,
                >(name@)),
            decreases n - i,
        {
            assert(rest.take(i - 1).drop_last() =~= rest.take(i - 2));
            assert(rest.take(i - 1).last() == toks@[i as int]@);
            match Word::from_token(toks[i]) {
                Err(e) => {
                    proof {
                        lemma_words_of_stops(rest, i - 1);
                    }
                    return Err(e);
                },
                Ok(w) => {
                    let ghost before = body_view(body@);
                    body.push(w);
                    assert(body_view(body@) =~= before.push(w@));
                },
            }
            i = i + 1;
        }
        assert(rest.take(n - 2) =~= rest);
        if body.len() == 0 {
            return Err(Error::DefBody);
        }
        let mut j: usize = 0;
        while j < body.len()
            invariant
                j <= body.len(),
                forall|k: int| 0 <= k < j ==> body_view(body@)[k] != WordView::Custom(name@),
                self.wf(),
                self@ == old(self)@,
                ts == tokens_view(toks@).drop_first(),
                ts.len() > 0,
                word_of(ts[0]) == Ok::<WordView, Fault>(wv),
                name_of(wv) == Ok::<Seq<char>, Fault>(name@),
                words_of(ts.drop_first()) == Ok::<Seq<WordView>, Fault>(body_view(body@)),
                body@.len() > 0,
            decreases body.len() - j,
        {
            if body[j].is_named(name.as_str()) {
                assert(body_view(body@)[j as int] == WordView::Custom(name@));
                return Err(Error::SelfRef(name));
            }
            j = j + 1;
        }
        assert(!body_view(body@).contains(WordView::Custom(name@)));
        let ghost k = name@;
        let ghost v = body_view(body@);
        proof {
            lemma_insert_entry_ok(table_entries(self.env), k, v);
        }
        table_insert(&mut self.env, name, body);
        proof {
            let es = table_entries(old(self).env);
            if exists|i: int| 0 <= i < es.len() && (#[trigger] es[i]).0 == k {
                let i = choose|i: int| 0 <= i < es.len() && (#[trigger] es[i]).0 == k;
                assert(names_unique(es));
            }
        }
        Ok(())
    }

    /// Read a line and evaluate it.
    pub fn read_eval(&mut self, s: &str) -> (r: Result<(), Error>)
        requires
            old(self).wf(),
        ensures
            final(self).wf(),
            final(self)@ == after_line(old(self)@, s@).0,
            r is Ok <==> after_line(old(self)@, s@).1 is None,
            r matches Err(e) ==> after_line(old(self)@, s@).1 == Some(e@),
    {
        let toks = match Token::lex(s) {
            Err(e) => {
                return Err(e);
            },
            Ok(t) => t,
        };
        let ghost ts = tokens_view(toks@);
        proof {
            lemma_lex_customs(s@);
            assert forall|i: int|
                0 <= i < toks@.len() && (#[trigger] toks@[i]) is Custom implies toks@[i]@->Custom_0
                    != def_text() by {
                assert(ts[i] == toks@[i]@);
            }
        }
        let n = toks.len();
        if n > 0 {
            if let Token::Def = toks[0] {
                assert(ts[0] is Def);
                return self.define(&toks);
            }
        }
        assert(!(ts.len() > 0 && ts[0] is Def));
        let ghost env_m = self@.env();
        let ghost st0 = self@.stack;
        let ghost p0 = self@.printed;
        let ghost fuel = self@.depth;
        let mut i: usize = 0;
        assert(ts.take(0) =~= Seq::<TokenView>::empty());
        while i < n
            invariant
                i <= n,
                n == toks@.len(),
                ts == tokens_view(toks@),
                self.wf(),
                self@.entries == old(self)@.entries,
                self@.depth == old(self)@.depth,
                env_m == old(self)@.env(),
                st0 == old(self)@.stack,
                p0 == old(self)@.printed,
                fuel == old(self)@.depth,
                lex(s@) == Ok::<Seq<TokenView>, Fault>(ts),
                !(ts.len() > 0 && ts[0] is Def),
                self@.stack == run_tokens(env_m, st0, p0, ts.take(i as int), fuel).stack,
                self@.printed == run_tokens(env_m, st0, p0, ts.take(i as int), fuel).printed,
                run_tokens(env_m, st0, p0, ts.take(i as int), fuel).fault is None,
            decreases n - i,
        {
            assert(ts.take(i + 1).drop_last() =~= ts.take(i as int));
            assert(ts.take(i + 1).last() == toks@[i as int]@);
            let w = match Word::from_token(toks[i]) {
                Err(e) => {
                    proof {
                        lemma_run_tokens_stops(env_m, st0, p0, ts, i + 1, fuel);
                    }
                    return Err(e);
                },
                Ok(w) => w,
            };
            match eval_word(&self.env, &mut self.stack, &mut self.printed, &w, self.depth) {
                Err(e) => {
                    proof {
                        lemma_run_tokens_stops(env_m, st0, p0, ts, i + 1, fuel);
                    }
                    return Err(e);
                },
                Ok(()) => {},
            }
            i = i + 1;
        }
        assert(ts.take(n as int) =~= ts);
        Ok(())
    }
}

impl Default for Machine {
    fn default() -> (r: Machine)
        ensures
            r.wf(),
            r@ == (MachineView {
                entries: seq![],
                stack: seq![],
                printed: seq![],
                depth: DEFAULT_DEPTH_LIMIT as nat,
            }),
    {
        Machine::with_depth_limit(DEFAULT_DEPTH_LIMIT)
    }
}

} // verus!
