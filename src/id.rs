use vstd::prelude::*;

verus! {

/// Identity of a participant. Identifiers are never reused: splits and merges
/// give their successors fresh ones.
#[derive(Copy, Clone, Debug, PartialEq, Eq, PartialOrd, Ord, Hash, Structural)]
pub struct Id(usize);

impl View for Id {
    type V = usize;

    closed spec fn view(&self) -> usize {
        self.0
    }
}

/// Two identifiers with the same number are the same identifier.
pub proof fn lemma_id_view_injective(a: Id, b: Id)
    ensures
        a@ == b@ <==> a == b,
{
}

impl Id {
    /// The identifier with the given number.
    pub fn explicit(n: usize) -> (r: Self)
        ensures
            r@ == n,
    {
        Id(n)
    }

    /// The number behind this identifier.
    pub fn value(&self) -> (r: usize)
        ensures
            r == self@,
    {
        self.0
    }
}

/// Hands out identifiers in strictly increasing order.
pub struct IdGenerator {
    state: usize,
}

impl View for IdGenerator {
    /// The number that the next identifier will carry.
    type V = usize;

    closed spec fn view(&self) -> usize {
        self.state
    }
}

impl IdGenerator {
    /// A generator whose first identifier is 0.
    pub fn new() -> (r: Self)
        ensures
            r@ == 0,
    {
        IdGenerator { state: 0 }
    }

    /// The number that the next identifier will carry.
    pub fn peek(&self) -> (r: usize)
        ensures
            r == self@,
    {
        self.state
    }

    /// The next identifier: greater than every one handed out before.
    pub fn next(&mut self) -> (r: Id)
        requires
            old(self)@ < usize::MAX,
        ensures
            r@ == old(self)@,
            final(self)@ == old(self)@ + 1,
    {
        let res = Id(self.state);
        self.state = self.state + 1;
        res
    }
}

impl Default for IdGenerator {
    fn default() -> (r: Self)
        ensures
            r@ == 0,
    {
        IdGenerator::new()
    }
}

} // verus!
