use crate::error::{Error, Fault};
use crate::primitive::Core;
use vstd::prelude::*;
use vstd::string::{StrSliceExecFns, StringExecFns};

verus! {

/// Tokens are lexed from input strings.
#[derive(Debug, PartialEq, Eq, Clone, Copy)]
pub enum Token<'a> {
    /// Define a new word.
    Def,
    /// A core word.
    Core(Core),
    /// An integer in decimal notation.
    Num(i64),
    /// An integer in hexadecimal notation.
    Hex(i64),
    /// A (possibly unknown) custom token.
    Custom(&'a str),
}

/// The mathematical value of a [`Token`].
pub enum TokenView {
    Def,
    Core(Core),
    Num(i64),
    Hex(i64),
    Custom(Seq<char>),
}

impl<'a> View for Token<'a> {
    type V = TokenView;

    open spec fn view(&self) -> TokenView {
        match self {
            Token::Def => TokenView::Def,
            Token::Core(c) => TokenView::Core(*c),
            Token::Num(n) => TokenView::Num(*n),
            Token::Hex(n) => TokenView::Hex(*n),
            Token::Custom(s) => TokenView::Custom(s@),
        }
    }
}

/// Unicode white space, the separator between tokens.
pub open spec fn is_space(c: char) -> bool {
    ||| '\u{9}' <= c <= '\u{d}'
    ||| c == ' '
    ||| c == '\u{85}'
    ||| c == '\u{a0}'
    ||| c == '\u{1680}'
    ||| '\u{2000}' <= c <= '\u{200a}'
    ||| c == '\u{2028}'
    ||| c == '\u{2029}'
    ||| c == '\u{202f}'
    ||| c == '\u{205f}'
    ||| c == '\u{3000}'
}

/// An ASCII decimal digit.
pub open spec fn is_digit(c: char) -> bool {
    '0' <= c <= '9'
}

/// An ASCII hexadecimal digit, in either case.
pub open spec fn is_hex_digit(c: char) -> bool {
    ||| is_digit(c)
    ||| 'a' <= c <= 'f'
    ||| 'A' <= c <= 'F'
}

/// The value of a hexadecimal (and so also of a decimal) digit.
pub open spec fn digit_value(c: char) -> nat {
    if is_digit(c) {
        (c as u32 - '0' as u32) as nat
    } else if 'a' <= c <= 'f' {
        (c as u32 - 'a' as u32 + 10) as nat
    } else {
        (c as u32 - 'A' as u32 + 10) as nat
    }
}

/// The value of a string of digits in the given radix, most significant first.
pub open spec fn digits_value(s: Seq<char>, radix: nat) -> nat
    decreases s.len(),
{
    if s.len() == 0 {
        0
    } else {
        digits_value(s.drop_last(), radix) * radix + digit_value(s.last())
    }
}

/// Every character is a decimal digit.
pub open spec fn all_digits(s: Seq<char>) -> bool {
    forall|i: int| 0 <= i < s.len() ==> is_digit(#[trigger] s[i])
}

/// Every character is a hexadecimal digit.
pub open spec fn all_hex_digits(s: Seq<char>) -> bool {
    forall|i: int| 0 <= i < s.len() ==> is_hex_digit(#[trigger] s[i])
}

/// The keyword that starts a definition.
pub open spec fn def_text() -> Seq<char> {
    seq!['d', 'e', 'f']
}

/// The core operation spelled by `s`, if any.
pub open spec fn core_named(s: Seq<char>) -> Option<Core> {
    if s == Core::Drop.spec_name() {
        Some(Core::Drop)
    } else if s == Core::Swap.spec_name() {
        Some(Core::Swap)
    } else if s == Core::Dup.spec_name() {
        Some(Core::Dup)
    } else if s == Core::Add.spec_name() {
        Some(Core::Add)
    } else if s == Core::Sub.spec_name() {
        Some(Core::Sub)
    } else if s == Core::Mul.spec_name() {
        Some(Core::Mul)
    } else if s == Core::Div.spec_name() {
        Some(Core::Div)
    } else if s == Core::Mod.spec_name() {
        Some(Core::Mod)
    } else if s == Core::Zero.spec_name() {
        Some(Core::Zero)
    } else if s == Core::Print.spec_name() {
        Some(Core::Print)
    } else {
        None
    }
}

/// The token that a whitespace-free run of characters stands for.
///
/// The keyword and the core spellings come first; then an optionally signed
/// run of decimal digits, which must fit in an `i64`; a `-` followed by
/// anything but digits is malformed; `#` and hexadecimal digits give a
/// non-negative `i64`; anything else names a (possibly unknown) custom word.
pub open spec fn classify(w: Seq<char>) -> Result<TokenView, Fault> {
    if w == def_text() {
        Ok(TokenView::Def)
    } else if core_named(w) is Some {
        Ok(TokenView::Core(core_named(w)->0))
    } else if w.len() >= 1 && all_digits(w) {
        if digits_value(w, 10) <= i64::MAX {
            Ok(TokenView::Num(digits_value(w, 10) as i64))
        } else {
            Err(Fault::Parsing(w))
        }
    } else if w.len() >= 2 && w[0] == '-' {
        if !all_digits(w.drop_first()) {
            Err(Fault::Lexical(w))
        } else if digits_value(w.drop_first(), 10) <= 0x8000_0000_0000_0000 {
            Ok(TokenView::Num((-digits_value(w.drop_first(), 10)) as i64))
        } else {
            Err(Fault::Parsing(w))
        }
    } else if w.len() >= 2 && w[0] == '#' && all_hex_digits(w.drop_first()) {
        if digits_value(w.drop_first(), 16) <= i64::MAX {
            Ok(TokenView::Hex(digits_value(w.drop_first(), 16) as i64))
        } else {
            Err(Fault::Parsing(w))
        }
    } else {
        Ok(TokenView::Custom(w))
    }
}

/// The maximal whitespace-free runs of `s`, in order.
pub open spec fn chunks(s: Seq<char>) -> Seq<Seq<char>>
    decreases s.len(),
{
    if s.len() == 0 {
        seq![]
    } else if is_space(s[0]) {
        chunks(s.drop_first())
    } else {
        let rest = chunks(s.drop_first());
        if s.len() >= 2 && !is_space(s[1]) {
            seq![seq![s[0]] + rest[0]] + rest.drop_first()
        } else {
            seq![seq![s[0]]] + rest
        }
    }
}

/// Classifies each run in order; the first that fails decides the error.
pub open spec fn lex_chunks(cs: Seq<Seq<char>>) -> Result<Seq<TokenView>, Fault>
    decreases cs.len(),
{
    if cs.len() == 0 {
        Ok(seq![])
    } else {
        match classify(cs[0]) {
            Err(f) => Err(f),
            Ok(t) => match lex_chunks(cs.drop_first()) {
                Err(f) => Err(f),
                Ok(ts) => Ok(seq![t] + ts),
            },
        }
    }
}

/// The tokens of a line of text, or the first lexical error in it.
pub open spec fn lex(s: Seq<char>) -> Result<Seq<TokenView>, Fault> {
    lex_chunks(chunks(s))
}

/// Tokens already read, followed by the outcome of reading the rest.
pub open spec fn lex_after(done: Seq<TokenView>, rest: Result<Seq<TokenView>, Fault>) -> Result<
    Seq<TokenView>,
    Fault,
> {
    match rest {
        Ok(ts) => Ok(done + ts),
        Err(f) => Err(f),
    }
}

/// A run of `k` non-space characters that ends the line or a space ends is one chunk.
pub(crate) proof fn lemma_chunks_split(s: Seq<char>, k: int)
    requires
        1 <= k <= s.len(),
        forall|j: int| 0 <= j < k ==> !is_space(#[trigger] s[j]),
        k == s.len() || is_space(s[k]),
    ensures
        chunks(s) == seq![s.take(k)] + chunks(s.skip(k)),
    decreases k,
{
    assert(s.skip(1) =~= s.drop_first());
    if k == 1 {
        assert(seq![s[0]] =~= s.take(1));
    } else {
        let t = s.drop_first();
        assert forall|j: int| 0 <= j < k - 1 implies !is_space(#[trigger] t[j]) by {
            assert(t[j] == s[j + 1]);
        }
        lemma_chunks_split(t, k - 1);
        assert(t.skip(k - 1) =~= s.skip(k));
        assert(seq![s[0]] + t.take(k - 1) =~= s.take(k));
        let rest = chunks(t);
        assert(rest[0] == t.take(k - 1));
        assert(rest.drop_first() =~= chunks(s.skip(k)));
    }
}

/// The mathematical values of a sequence of tokens.
pub open spec fn tokens_view<'a>(ts: Seq<Token<'a>>) -> Seq<TokenView> {
    ts.map_values(|t: Token<'a>| t@)
}

/// A longer run of digits is worth at least as much as its prefix.
proof fn lemma_digits_value_grows(s: Seq<char>, radix: nat, k: int)
    requires
        radix >= 1,
        0 <= k <= s.len(),
    ensures
        digits_value(s.take(k), radix) <= digits_value(s, radix),
    decreases s.len(),
{
    if k < s.len() {
        assert(s.drop_last().take(k) =~= s.take(k));
        lemma_digits_value_grows(s.drop_last(), radix, k);
        assert(digits_value(s.drop_last(), radix) <= digits_value(s.drop_last(), radix) * radix)
            by (nonlinear_arith)
            requires
                radix >= 1,
        ;
    } else {
        assert(s.take(k) =~= s);
    }
}

/// A custom token that lexing produces never spells the definition keyword.
pub proof fn lemma_lex_customs(s: Seq<char>)
    requires
        lex(s) is Ok,
    ensures
        forall|i: int|
            0 <= i < lex(s)->Ok_0.len() && (#[trigger] lex(s)->Ok_0[i]) is Custom ==> lex(
                s,
            )->Ok_0[i]->Custom_0 != def_text(),
{
    lemma_lex_chunks_customs(chunks(s));
}

proof fn lemma_lex_chunks_customs(cs: Seq<Seq<char>>)
    requires
        lex_chunks(cs) is Ok,
    ensures
        forall|i: int|
            0 <= i < lex_chunks(cs)->Ok_0.len() && (#[trigger] lex_chunks(cs)->Ok_0[i]) is Custom
                ==> lex_chunks(cs)->Ok_0[i]->Custom_0 != def_text(),
    decreases cs.len(),
{
    if cs.len() > 0 {
        lemma_lex_chunks_customs(cs.drop_first());
        let t = classify(cs[0])->Ok_0;
        let rest = lex_chunks(cs.drop_first())->Ok_0;
        assert forall|i: int|
            0 <= i < lex_chunks(cs)->Ok_0.len() && (#[trigger] lex_chunks(cs)->Ok_0[i]) is Custom
                implies lex_chunks(cs)->Ok_0[i]->Custom_0 != def_text() by {
            if i > 0 {
                assert(lex_chunks(cs)->Ok_0[i] == rest[i - 1]);
            }
        }
    }
}

fn is_space_char(c: char) -> (r: bool)
    ensures
        r == is_space(c),
{
    ('\u{9}' <= c && c <= '\u{d}') || c == ' ' || c == '\u{85}' || c == '\u{a0}' || c
        == '\u{1680}' || ('\u{2000}' <= c && c <= '\u{200a}') || c == '\u{2028}' || c
        == '\u{2029}' || c == '\u{202f}' || c == '\u{205f}' || c == '\u{3000}'
}

fn is_digit_char(c: char) -> (r: bool)
    ensures
        r == is_digit(c),
{
    '0' <= c && c <= '9'
}

fn is_hex_digit_char(c: char) -> (r: bool)
    ensures
        r == is_hex_digit(c),
{
    ('0' <= c && c <= '9') || ('a' <= c && c <= 'f') || ('A' <= c && c <= 'F')
}

fn digit_value_of(c: char) -> (r: u64)
    requires
        is_hex_digit(c),
    ensures
        r == digit_value(c),
        r < 16,
{
    if '0' <= c && c <= '9' {
        (c as u32 - '0' as u32) as u64
    } else if 'a' <= c && c <= 'f' {
        (c as u32 - 'a' as u32 + 10) as u64
    } else {
        (c as u32 - 'A' as u32 + 10) as u64
    }
}

/// Whether every character of `w` from `from` on is a digit: a hexadecimal
/// one when `hex`, else a decimal one.
fn digits_from(w: &str, from: usize, hex: bool) -> (r: bool)
    requires
        from <= w@.len(),
    ensures
        !hex ==> r == all_digits(w@.skip(from as int)),
        hex ==> r == all_hex_digits(w@.skip(from as int)),
{
    let n = w.unicode_len();
    let mut i: usize = from;
    while i < n
        invariant
            from <= i <= n,
            n == w@.len(),
            forall|j: int|
                from <= j < i ==> if hex {
                    is_hex_digit(#[trigger] w@[j])
                } else {
                    is_digit(w@[j])
                },
        decreases n - i,
    {
        let c = w.get_char(i);
        let ok = if hex {
            is_hex_digit_char(c)
        } else {
            is_digit_char(c)
        };
        if !ok {
            assert(w@.skip(from as int)[i - from] == c);
            return false;
        }
        i = i + 1;
    }
    assert forall|j: int| 0 <= j < w@.skip(from as int).len() implies if hex {
        is_hex_digit(#[trigger] w@.skip(from as int)[j])
    } else {
        is_digit(w@.skip(from as int)[j])
    } by {
        assert(w@.skip(from as int)[j] == w@[from + j]);
    }
    true
}

/// The value of the digits of `w` from `from` on, when it is at most `limit`.
fn value_from(w: &str, from: usize, radix: u64, limit: u64) -> (r: Option<u64>)
    requires
        from <= w@.len(),
        radix == 10 || radix == 16,
        all_hex_digits(w@.skip(from as int)),
    ensures
        r matches Some(v) ==> v == digits_value(w@.skip(from as int), radix as nat) && v <= limit,
        r is None ==> digits_value(w@.skip(from as int), radix as nat) > limit,
{
    let n = w.unicode_len();
    let ghost tail = w@.skip(from as int);
    let mut acc: u64 = 0;
    let mut i: usize = from;
    while i < n
        invariant
            from <= i <= n,
            n == w@.len(),
            tail == w@.skip(from as int),
            all_hex_digits(tail),
            radix == 10 || radix == 16,
            acc == digits_value(tail.take(i - from), radix as nat),
            acc <= limit,
        decreases n - i,
    {
        let c = w.get_char(i);
        assert(tail[i - from] == c);
        let d = digit_value_of(c);
        let ghost next = tail.take(i + 1 - from);
        assert(next.drop_last() =~= tail.take(i - from));
        assert(next.last() == c);
        match acc.checked_mul(radix) {
            None => {
                proof {
                    lemma_digits_value_grows(tail, radix as nat, i + 1 - from);
                }
                return None;
            },
            Some(x) => match x.checked_add(d) {
                None => {
                    proof {
                        lemma_digits_value_grows(tail, radix as nat, i + 1 - from);
                    }
                    return None;
                },
                Some(y) => {
                    if y > limit {
                        proof {
                            lemma_digits_value_grows(tail, radix as nat, i + 1 - from);
                        }
                        return None;
                    }
                    acc = y;
                },
            },
        }
        i = i + 1;
    }
    assert(tail.take(n - from) =~= tail);
    Some(acc)
}

/// Whether two texts are equal, character for character.
pub(crate) fn same_text(a: &str, b: &str) -> (r: bool)
    ensures
        r == (a@ == b@),
{
    let n = a.unicode_len();
    if n != b.unicode_len() {
        return false;
    }
    let mut i: usize = 0;
    while i < n
        invariant
            i <= n,
            n == a@.len(),
            n == b@.len(),
            forall|j: int| 0 <= j < i ==> a@[j] == b@[j],
        decreases n - i,
    {
        if a.get_char(i) != b.get_char(i) {
            return false;
        }
        i = i + 1;
    }
    assert(a@ =~= b@);
    true
}

/// The core operation spelled by `w`, if any.
fn core_of(w: &str) -> (r: Option<Core>)
    ensures
        r == core_named(w@),
{
    if same_text(w, Core::Drop.name()) {
        Some(Core::Drop)
    } else if same_text(w, Core::Swap.name()) {
        Some(Core::Swap)
    } else if same_text(w, Core::Dup.name()) {
        Some(Core::Dup)
    } else if same_text(w, Core::Add.name()) {
        Some(Core::Add)
    } else if same_text(w, Core::Sub.name()) {
        Some(Core::Sub)
    } else if same_text(w, Core::Mul.name()) {
        Some(Core::Mul)
    } else if same_text(w, Core::Div.name()) {
        Some(Core::Div)
    } else if same_text(w, Core::Mod.name()) {
        Some(Core::Mod)
    } else if same_text(w, Core::Zero.name()) {
        Some(Core::Zero)
    } else if same_text(w, Core::Print.name()) {
        Some(Core::Print)
    } else {
        None
    }
}

impl<'a> Token<'a> {
    /// The token that a whitespace-free run of characters stands for.
    pub fn classify(w: &'a str) -> (r: Result<Token<'a>, Error>)
        ensures
            r matches Ok(t) ==> classify(w@) == Ok::<TokenView, Fault>(t@),
            r matches Err(e) ==> classify(w@) == Err::<TokenView, Fault>(e@),
    {
        proof {
            reveal_strlit("def");
        }
        assert("def"@ =~= def_text());
        if same_text(w, "def") {
            return Ok(Token::Def);
        }
        if let Some(c) = core_of(w) {
            return Ok(Token::Core(c));
        }
        let n = w.unicode_len();
        assert(w@.skip(0) =~= w@);
        if n >= 1 && digits_from(w, 0, false) {
            return match value_from(w, 0, 10, 0x7fff_ffff_ffff_ffff) {
                Some(v) => Ok(Token::Num(v as i64)),
                None => Err(Error::Parsing(String::from_str(w))),
            };
        }
        if n >= 2 && w.get_char(0) == '-' {
            assert(w@.skip(1) =~= w@.drop_first());
            if !digits_from(w, 1, false) {
                return Err(Error::Lexical(String::from_str(w)));
            }
            return match value_from(w, 1, 10, 0x8000_0000_0000_0000) {
                Some(v) => {
                    if v == 0x8000_0000_0000_0000 {
                        Ok(Token::Num(i64::MIN))
                    } else {
                        Ok(Token::Num(-(v as i64)))
                    }
                },
                None => Err(Error::Parsing(String::from_str(w))),
            };
        }
        if n >= 2 && w.get_char(0) == '#' {
            assert(w@.skip(1) =~= w@.drop_first());
            if digits_from(w, 1, true) {
                return match value_from(w, 1, 16, 0x7fff_ffff_ffff_ffff) {
                    Some(v) => Ok(Token::Hex(v as i64)),
                    None => Err(Error::Parsing(String::from_str(w))),
                };
            }
        }
        Ok(Token::Custom(w))
    }
}

impl<'a> Token<'a> {
    /// Splits a line into tokens, failing at the first malformed literal.
    pub fn lex(s: &'a str) -> (r: Result<Vec<Token<'a>>, Error>)
        ensures
            r matches Ok(ts) ==> lex(s@) == Ok::<Seq<TokenView>, Fault>(tokens_view(ts@)),
            r matches Err(e) ==> lex(s@) == Err::<Seq<TokenView>, Fault>(e@),
    {
        let n = s.unicode_len();
        let mut toks: Vec<Token<'a>> = Vec::new();
        let mut i: usize = 0;
        assert(s@.skip(0) =~= s@);
        assert(tokens_view(toks@) + seq![] =~= seq![]);
        while i < n
            invariant
                i <= n,
                n == s@.len(),
                lex(s@) == lex_after(tokens_view(toks@), lex(s@.skip(i as int))),
            decreases n - i,
        {
            let c = s.get_char(i);
            if is_space_char(c) {
                assert(s@.skip(i as int).drop_first() =~= s@.skip(i + 1));
                i = i + 1;
            } else {
                let mut j: usize = i + 1;
                while j < n && !is_space_char(s.get_char(j))
                    invariant
                        i < j <= n,
                        n == s@.len(),
                        forall|k: int| i <= k < j ==> !is_space(#[trigger] s@[k]),
                    decreases n - j,
                {
                    j = j + 1;
                }
                let ghost rest = s@.skip(i as int);
                proof {
                    assert forall|k: int| 0 <= k < j - i implies !is_space(#[trigger] rest[k]) by {
                        assert(rest[k] == s@[i + k]);
                    }
                    if j < n {
                        assert(rest[j - i] == s@[j as int]);
                    }
                    lemma_chunks_split(rest, j - i);
                    assert(rest.take(j - i) =~= s@.subrange(i as int, j as int));
                    assert(rest.skip(j - i) =~= s@.skip(j as int));
                    let cs = chunks(rest);
                    assert(cs[0] == s@.subrange(i as int, j as int));
                    assert(cs.drop_first() =~= chunks(s@.skip(j as int)));
                }
                let w = s.substring_char(i, j);
                match Token::classify(w) {
                    Err(e) => {
                        return Err(e);
                    },
                    Ok(t) => {
                        let ghost before = tokens_view(toks@);
                        toks.push(t);
                        proof {
                            assert(tokens_view(toks@) =~= before.push(t@));
                            match lex(s@.skip(j as int)) {
                                Ok(more) => {
                                    assert(before + (seq![t@] + more) =~= tokens_view(toks@)
                                        + more);
                                },
                                Err(_) => {},
                            }
                        }
                        i = j;
                    },
                }
            }
        }
        assert(s@.skip(n as int) =~= Seq::<char>::empty());
        assert(tokens_view(toks@) + seq![] =~= tokens_view(toks@));
        Ok(toks)
    }
}

} // verus!
