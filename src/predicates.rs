use vstd::prelude::*;
use vstd::string::StringSliceAdditionalSpecFns;
use crate::ast::str_bytes;

verus! {

/// A test on single bytes, built from the forms below.
#[derive(Debug)]
pub enum Predicate {
    Among(Vec<u8>),
    Range(u8, u8),
    Ch(u8),
    Not(Box<Predicate>),
}

pub open spec fn holds(p: Predicate, chr: u8) -> bool
    decreases p,
{
    match p {
        Predicate::Among(cs) => cs@.contains(chr),
        Predicate::Range(start, end) => start <= chr <= end,
        Predicate::Ch(value) => chr == value,
        Predicate::Not(q) => !holds(*q, chr),
    }
}

impl Predicate {
    pub fn test(&self, chr: u8) -> (r: bool)
        ensures
            r == holds(*self, chr),
        decreases *self,
    {
        match self {
            Predicate::Among(cs) => {
                let mut k: usize = 0;
                while k < cs.len()
                    invariant
                        holds(*self, chr) == cs@.contains(chr),
                        k <= cs@.len(),
                        forall|j: int| 0 <= j < k ==> cs@[j] != chr,
                    decreases cs@.len() - k,
                {
                    if cs[k] == chr {
                        assert(cs@[k as int] == chr);
                        assert(cs@.contains(chr));
                        return true;
                    }
                    k = k + 1;
                }
                false
            },
            Predicate::Range(start, end) => *start <= chr && chr <= *end,
            Predicate::Ch(value) => chr == *value,
            Predicate::Not(q) => !q.test(chr),
        }
    }
}

/// The bytes of `characters`.
pub fn among(characters: &str) -> (r: Predicate)
    ensures
        r == Predicate::Among(r->Among_0) && r->Among_0@ == characters.spec_bytes(),
{
    Predicate::Among(str_bytes(characters))
}

/// The bytes from `start` to `end`, both included.
pub fn range(start: u8, end: u8) -> (r: Predicate)
    ensures
        r == Predicate::Range(start, end),
{
    Predicate::Range(start, end)
}

/// The byte `value`.
pub fn ch(value: u8) -> (r: Predicate)
    ensures
        r == Predicate::Ch(value),
{
    Predicate::Ch(value)
}

/// The bytes that `predicate` refuses.
pub fn not(predicate: Predicate) -> (r: Predicate)
    ensures
        forall|c: u8| holds(r, c) == !holds(predicate, c),
{
    Predicate::Not(Box::new(predicate))
}

} // verus!
