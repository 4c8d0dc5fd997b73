use vstd::prelude::*;

verus! {

/// The primitive operations of the machine.
#[derive(PartialEq, Eq, Clone, Copy, Debug, Structural)]
pub enum Core {
    /// Pop an item off the stack, ignoring it.
    Drop,
    /// Swap the top two elements of the stack.
    Swap,
    /// Duplicate the first element of the stack.
    Dup,
    /// Add the first two elements of the stack.
    Add,
    /// Subtract the second from the first element of the stack.
    Sub,
    /// Multiply the first two elements of the stack.
    Mul,
    /// Divide the second into the first element of the stack.
    Div,
    /// Take the remainder of the second in the first element of the stack.
    Mod,
    /// Pop 3 elements. If the first is zero, push the second back on; otherwise, push the third.
    Zero,
    /// Pop an element off the stack and print it.
    Print,
}

impl Core {
    /// The keyword that spells this operation.
    pub open spec fn spec_name(self) -> Seq<char> {
        match self {
            Core::Drop => seq!['d', 'r', 'o', 'p'],
            Core::Swap => seq!['s', 'w', 'a', 'p'],
            Core::Dup => seq!['d', 'u', 'p'],
            Core::Add => seq!['a', 'd', 'd'],
            Core::Sub => seq!['s', 'u', 'b'],
            Core::Mul => seq!['m', 'u', 'l'],
            Core::Div => seq!['d', 'i', 'v'],
            Core::Mod => seq!['m', 'o', 'd'],
            Core::Zero => seq!['z', 'e', 'r', 'o', '?'],
            Core::Print => seq!['p', 'r', 'i', 'n', 't'],
        }
    }

    /// The number of stack values the operation needs before it may run.
    pub open spec fn spec_arity(self) -> nat {
        match self {
            Core::Drop | Core::Dup | Core::Print => 1,
            Core::Swap | Core::Add | Core::Sub | Core::Mul | Core::Div | Core::Mod => 2,
            Core::Zero => 3,
        }
    }

    /// The keyword that spells this operation.
    pub fn name(&self) -> (r: &'static str)
        ensures
            r@ == self.spec_name(),
    {
        match self {
            Core::Drop => {
                proof {
                    reveal_strlit("drop");
                }
                "drop"
            },
            Core::Swap => {
                proof {
                    reveal_strlit("swap");
                }
                "swap"
            },
            Core::Dup => {
                proof {
                    reveal_strlit("dup");
                }
                "dup"
            },
            Core::Add => {
                proof {
                    reveal_strlit("add");
                }
                "add"
            },
            Core::Sub => {
                proof {
                    reveal_strlit("sub");
                }
                "sub"
            },
            Core::Mul => {
                proof {
                    reveal_strlit("mul");
                }
                "mul"
            },
            Core::Div => {
                proof {
                    reveal_strlit("div");
                }
                "div"
            },
            Core::Mod => {
                proof {
                    reveal_strlit("mod");
                }
                "mod"
            },
            Core::Zero => {
                proof {
                    reveal_strlit("zero?");
                }
                "zero?"
            },
            Core::Print => {
                proof {
                    reveal_strlit("print");
                }
                "print"
            },
        }
    }

    /// The number of stack values the operation needs before it may run.
    pub fn arity(&self) -> (r: usize)
        ensures
            r == self.spec_arity(),
    {
        match self {
            Core::Drop | Core::Dup | Core::Print => 1,
            Core::Swap | Core::Add | Core::Sub | Core::Mul | Core::Div | Core::Mod => 2,
            Core::Zero => 3,
        }
    }
}

} // verus!
