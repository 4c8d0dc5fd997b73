use vstd::prelude::*;

verus! {

/// Everything that can go wrong while reading or evaluating a line.
#[derive(Clone, Debug, PartialEq, Eq)]
pub enum Error {
    /// A minus sign followed by something other than decimal digits.
    Lexical(String),
    /// An integer literal that does not fit in 64 signed bits.
    Parsing(String),
    /// `def` stands where a word was expected; it may only start a line.
    Reserved,
    /// `def` needs a name, but none was supplied.
    DefName,
    /// A name was expected, but a number was supplied.
    NumNotName(i64),
    /// A name was expected, but a core word was supplied.
    CoreNotName(String),
    /// `def` needs a body, but none was supplied.
    DefBody,
    /// A definition whose body names the word being defined.
    SelfRef(String),
    /// The stack is too small for a word: the word, the depth it requires, and the depth there is.
    Small(String, usize, usize),
    /// A division or remainder whose second operand is zero.
    NotNonzero(String),
    /// The remainder of the smallest integer by -1 is out of range.
    ModEdge,
    /// A custom word with no definition.
    Unknown(String),
    /// A custom word whose expansion nests deeper than the machine allows.
    TooDeep(String),
}

/// The mathematical value of an [`Error`], with texts as character sequences.
pub enum Fault {
    Lexical(Seq<char>),
    Parsing(Seq<char>),
    Reserved,
    DefName,
    NumNotName(i64),
    CoreNotName(Seq<char>),
    DefBody,
    SelfRef(Seq<char>),
    Small(Seq<char>, nat, nat),
    NotNonzero(Seq<char>),
    ModEdge,
    Unknown(Seq<char>),
    TooDeep(Seq<char>),
}

impl View for Error {
    type V = Fault;

    open spec fn view(&self) -> Fault {
        match self {
            Error::Lexical(s) => Fault::Lexical(s@),
            Error::Parsing(s) => Fault::Parsing(s@),
            Error::Reserved => Fault::Reserved,
            Error::DefName => Fault::DefName,
            Error::NumNotName(n) => Fault::NumNotName(*n),
            Error::CoreNotName(s) => Fault::CoreNotName(s@),
            Error::DefBody => Fault::DefBody,
            Error::SelfRef(s) => Fault::SelfRef(s@),
            Error::Small(s, r, a) => Fault::Small(s@, *r as nat, *a as nat),
            Error::NotNonzero(s) => Fault::NotNonzero(s@),
            Error::ModEdge => Fault::ModEdge,
            Error::Unknown(s) => Fault::Unknown(s@),
            Error::TooDeep(s) => Fault::TooDeep(s@),
        }
    }
}

} // verus!
