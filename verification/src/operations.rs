//! The arithmetic operations a proving request may ask for.
use vstd::prelude::*;

verus! {

/// An arithmetic operation.
#[derive(Debug, Clone, Copy, PartialEq, Eq)]
pub enum Operation {
    Add,
    Sub,
    Mul,
    Div,
}

/// Whether `s` reads exactly as `word`.
pub fn reads_as(s: &str, word: &str) -> (r: bool)
    ensures
        r == (s@ == word@),
{
    let n = s.unicode_len();
    if n != word.unicode_len() {
        return false;
    }
    let mut i: usize = 0;
    while i < n
        invariant
            0 <= i <= n,
            n == s@.len(),
            n == word@.len(),
            forall|j: int| 0 <= j < i ==> s@[j] == word@[j],
        decreases n - i,
    {
        if s.get_char(i) != word.get_char(i) {
            return false;
        }
        i = i + 1;
    }
    assert(s@ =~= word@);
    true
}

impl Operation {
    /// The operation a name stands for: `add`, `sub`, `mul` or `div`.
    pub open spec fn named(s: Seq<char>) -> Option<Operation> {
        if s == "add"@ {
            Some(Operation::Add)
        } else if s == "sub"@ {
            Some(Operation::Sub)
        } else if s == "mul"@ {
            Some(Operation::Mul)
        } else if s == "div"@ {
            Some(Operation::Div)
        } else {
            None
        }
    }

    /// Parses an operation from its name; any other text is refused.
    pub fn parse(s: &str) -> (r: Result<Operation, ()>)
        ensures
            r == match Operation::named(s@) {
                Some(op) => Ok(op),
                None => Err::<Operation, ()>(()),
            },
    {
        if reads_as(s, "add") {
            Ok(Operation::Add)
        } else if reads_as(s, "sub") {
            Ok(Operation::Sub)
        } else if reads_as(s, "mul") {
            Ok(Operation::Mul)
        } else if reads_as(s, "div") {
            Ok(Operation::Div)
        } else {
            Err(())
        }
    }
}

impl std::str::FromStr for Operation {
    type Err = ();

    fn from_str(s: &str) -> (r: Result<Self, Self::Err>)
        ensures
            r == match Operation::named(s@) {
                Some(op) => Ok(op),
                None => Err::<Operation, ()>(()),
            },
    {
        Operation::parse(s)
    }
}

} // verus!
