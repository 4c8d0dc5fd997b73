use crate::error::{Error, Fault};
use crate::primitive::Core;
use crate::token::{same_text, Token, TokenView};
use vstd::prelude::*;
use vstd::string::StringExecFns;

verus! {

/// The words upon which the machine works.
#[derive(Clone, Debug, PartialEq, Eq)]
pub enum Word {
    /// A core word.
    Core(Core),
    /// An integer.
    Num(i64),
    /// A custom word.
    Custom(String),
}

/// The mathematical value of a [`Word`].
pub enum WordView {
    Core(Core),
    Num(i64),
    Custom(Seq<char>),
}

impl View for Word {
    type V = WordView;

    open spec fn view(&self) -> WordView {
        match self {
            Word::Core(c) => WordView::Core(*c),
            Word::Num(n) => WordView::Num(*n),
            Word::Custom(s) => WordView::Custom(s@),
        }
    }
}

/// The character of a decimal digit.
pub open spec fn digit_char(d: int) -> char {
    if d == 0 {
        '0'
    } else if d == 1 {
        '1'
    } else if d == 2 {
        '2'
    } else if d == 3 {
        '3'
    } else if d == 4 {
        '4'
    } else if d == 5 {
        '5'
    } else if d == 6 {
        '6'
    } else if d == 7 {
        '7'
    } else if d == 8 {
        '8'
    } else {
        '9'
    }
}

/// The shortest decimal spelling of a natural number.
pub open spec fn nat_text(m: nat) -> Seq<char>
    decreases m,
{
    if m < 10 {
        seq![digit_char(m as int)]
    } else {
        nat_text(m / 10).push(digit_char((m % 10) as int))
    }
}

/// The decimal spelling of an integer, with a leading `-` when negative.
pub open spec fn int_text(n: int) -> Seq<char> {
    if n < 0 {
        seq!['-'] + nat_text((-n) as nat)
    } else {
        nat_text(n as nat)
    }
}

/// How a word is written in a line of text.
pub open spec fn word_text(w: WordView) -> Seq<char> {
    match w {
        WordView::Core(c) => c.spec_name(),
        WordView::Num(n) => int_text(n as int),
        WordView::Custom(s) => s,
    }
}

/// What `into_name` makes of a word.
pub open spec fn name_of(w: WordView) -> Result<Seq<char>, Fault> {
    match w {
        WordView::Custom(s) => Ok(s),
        WordView::Num(n) => Err(Fault::NumNotName(n)),
        WordView::Core(c) => Err(Fault::CoreNotName(c.spec_name())),
    }
}

/// The word that a token stands for; the definition keyword stands for none.
pub open spec fn word_of(t: TokenView) -> Result<WordView, Fault> {
    match t {
        TokenView::Def => Err(Fault::Reserved),
        TokenView::Core(c) => Ok(WordView::Core(c)),
        TokenView::Num(n) => Ok(WordView::Num(n)),
        TokenView::Hex(n) => Ok(WordView::Num(n)),
        TokenView::Custom(s) => Ok(WordView::Custom(s)),
    }
}

fn digit_str(d: u64) -> (r: &'static str)
    requires
        d < 10,
    ensures
        r@ == seq![digit_char(d as int)],
{
    if d == 0 {
        proof {
            reveal_strlit("0");
        }
        "0"
    } else if d == 1 {
        proof {
            reveal_strlit("1");
        }
        "1"
    } else if d == 2 {
        proof {
            reveal_strlit("2");
        }
        "2"
    } else if d == 3 {
        proof {
            reveal_strlit("3");
        }
        "3"
    } else if d == 4 {
        proof {
            reveal_strlit("4");
        }
        "4"
    } else if d == 5 {
        proof {
            reveal_strlit("5");
        }
        "5"
    } else if d == 6 {
        proof {
            reveal_strlit("6");
        }
        "6"
    } else if d == 7 {
        proof {
            reveal_strlit("7");
        }
        "7"
    } else if d == 8 {
        proof {
            reveal_strlit("8");
        }
        "8"
    } else {
        proof {
            reveal_strlit("9");
        }
        "9"
    }
}

/// Appends the decimal spelling of `m` to `s`.
fn push_nat(s: &mut String, m: u64)
    ensures
        final(s)@ == old(s)@ + nat_text(m as nat),
    decreases m,
{
    if m >= 10 {
        push_nat(s, m / 10);
    }
    s.append(digit_str(m % 10));
    proof {
        assert(final(s)@ =~= old(s)@ + nat_text(m as nat));
    }
}

/// Appends the decimal spelling of `n` to `s`.
pub(crate) fn push_int(s: &mut String, n: i64)
    ensures
        final(s)@ == old(s)@ + int_text(n as int),
{
    if n < 0 {
        proof {
            reveal_strlit("-");
        }
        s.append("-");
        let m: u64 = if n == i64::MIN {
            9223372036854775808u64
        } else {
            (-n) as u64
        };
        push_nat(s, m);
        proof {
            assert(final(s)@ =~= old(s)@ + int_text(n as int));
        }
    } else {
        push_nat(s, n as u64);
    }
}

impl Word {
    /// The word that a token stands for: the definition keyword may only start a line.
    pub fn from_token(t: Token) -> (r: Result<Word, Error>)
        ensures
            r matches Ok(w) ==> word_of(t@) == Ok::<WordView, Fault>(w@),
            r matches Err(e) ==> word_of(t@) == Err::<WordView, Fault>(e@),
    {
        match t {
            Token::Def => Err(Error::Reserved),
            Token::Core(c) => Ok(Word::Core(c)),
            Token::Num(n) => Ok(Word::Num(n)),
            Token::Hex(n) => Ok(Word::Num(n)),
            Token::Custom(w) => Ok(Word::Custom(String::from_str(w))),
        }
    }

    /// Appends the text of this word to `s`.
    pub(crate) fn push_text(&self, s: &mut String)
        ensures
            final(s)@ == old(s)@ + word_text(self@),
    {
        match self {
            Word::Core(c) => s.append(c.name()),
            Word::Num(n) => push_int(s, *n),
            Word::Custom(w) => s.append(w.as_str()),
        }
    }

    /// How this word is written in a line of text.
    pub fn text(&self) -> (r: String)
        ensures
            r@ == word_text(self@),
    {
        let mut s = String::new();
        self.push_text(&mut s);
        proof {
            assert(s@ =~= word_text(self@));
        }
        s
    }

    /// Whether this is the custom word named `s`.
    pub fn is_named(&self, s: &str) -> (r: bool)
        ensures
            r == (self@ == WordView::Custom(s@)),
    {
        match self {
            Word::Custom(w) => same_text(w.as_str(), s),
            _ => false,
        }
    }

    /// Transform this word into a name, if possible: only a custom word is one.
    pub fn into_name(self) -> (r: Result<String, Error>)
        ensures
            r matches Ok(s) ==> name_of(self@) == Ok::<Seq<char>, Fault>(s@),
            r matches Err(e) ==> name_of(self@) == Err::<Seq<char>, Fault>(e@),
    {
        match self {
            Word::Custom(w) => Ok(w),
            Word::Num(n) => Err(Error::NumNotName(n)),
            Word::Core(c) => {
                let mut s = String::new();
                s.append(c.name());
                proof {
                    assert(s@ =~= c.spec_name());
                }
                Err(Error::CoreNotName(s))
            },
        }
    }
}

} // verus!
