use vstd::prelude::*;

verus! {

/// A Boolean variable, identified by its index.
#[derive(Clone, Copy, Debug, PartialEq, Eq, Hash, Structural)]
pub struct Var {
    pub idx: u32,
}

impl Var {
    pub fn new(idx: u32) -> (r: Var)
        ensures
            r.idx == idx,
    {
        Var { idx }
    }

    /// The positive literal of this variable.
    pub fn pos_lit(self) -> (r: Lit)
        ensures
            r == Lit::pos(self.idx),
    {
        Lit { var: self, negated: false }
    }

    /// The negative literal of this variable.
    pub fn neg_lit(self) -> (r: Lit)
        ensures
            r == (Lit { var: self, negated: true }),
    {
        Lit { var: self, negated: true }
    }
}

/// A variable together with a polarity.
#[derive(Clone, Copy, Debug, PartialEq, Eq, Hash, Structural)]
pub struct Lit {
    pub var: Var,
    pub negated: bool,
}

impl Lit {
    pub open spec fn pos(idx: u32) -> Lit {
        Lit { var: Var { idx }, negated: false }
    }

    pub open spec fn neg(self) -> Lit {
        Lit { var: self.var, negated: !self.negated }
    }

    /// The positive literal of the variable with index `idx`.
    pub fn positive(idx: u32) -> (r: Lit)
        ensures
            r == Lit::pos(idx),
    {
        Lit { var: Var { idx }, negated: false }
    }

    /// The negative literal of the variable with index `idx`.
    pub fn negative(idx: u32) -> (r: Lit)
        ensures
            r == Lit::pos(idx).neg(),
    {
        Lit { var: Var { idx }, negated: true }
    }

    /// The literal of the same variable with the opposite polarity.
    pub fn negate(self) -> (r: Lit)
        ensures
            r == self.neg(),
    {
        Lit { var: self.var, negated: !self.negated }
    }
}

/// Serial allocator of fresh variables: every variable it hands out has an
/// index that it never handed out before.
#[derive(Clone, Copy, Debug, PartialEq, Eq, Structural)]
pub struct BasicVarManager {
    pub next_var: u32,
}

impl BasicVarManager {
    pub fn new() -> (r: BasicVarManager)
        ensures
            r.next_var == 0,
    {
        BasicVarManager { next_var: 0 }
    }

    /// Mints a fresh variable.
    pub fn next_free(&mut self) -> (r: Var)
        requires
            old(self).next_var < u32::MAX,
        ensures
            r.idx == old(self).next_var,
            final(self).next_var == old(self).next_var + 1,
    {
        let v = Var { idx: self.next_var };
        self.next_var = self.next_var + 1;
        v
    }

    /// The number of variables in use (minted or skipped).
    pub fn n_used(&self) -> (r: usize)
        ensures
            r == self.next_var,
    {
        self.next_var as usize
    }

    /// Raises the counter so that the next variable minted is at least `v`.
    /// Returns whether the counter changed.
    pub fn increase_next_free(&mut self, v: Var) -> (r: bool)
        ensures
            r == (v.idx > old(self).next_var),
            final(self).next_var == if v.idx > old(self).next_var {
                v.idx
            } else {
                old(self).next_var
            },
    {
        if v.idx > self.next_var {
            self.next_var = v.idx;
            true
        } else {
            false
        }
    }
}

/// A set of clauses, kept in the order in which they were added.
#[derive(Clone, Debug, PartialEq, Eq)]
pub struct Cnf {
    pub clauses: Vec<Vec<Lit>>,
}

impl View for Cnf {
    type V = Seq<Seq<Lit>>;

    open spec fn view(&self) -> Seq<Seq<Lit>> {
        Seq::new(self.clauses@.len(), |i: int| self.clauses@[i]@)
    }
}

impl Cnf {
    pub fn new() -> (r: Cnf)
        ensures
            r@ == Seq::<Seq<Lit>>::empty(),
    {
        let r = Cnf { clauses: Vec::new() };
        assert(r@ =~= Seq::<Seq<Lit>>::empty());
        r
    }

    pub fn n_clauses(&self) -> (r: usize)
        ensures
            r == self@.len(),
    {
        self.clauses.len()
    }

    /// Appends the clauses of `other`.
    pub fn extend(&mut self, other: Cnf)
        ensures
            final(self)@ == old(self)@ + other@,
    {
        let mut o = other;
        self.clauses.append(&mut o.clauses);
        assert(final(self)@ =~= old(self)@ + other@);
    }

    /// Adds the clause `{!a, b}`, i.e. the implication `a -> b`.
    pub fn add_lit_impl_lit(&mut self, a: Lit, b: Lit)
        ensures
            final(self)@ == old(self)@.push(seq![a.neg(), b]),
    {
        let c = vec![a.negate(), b];
        self.clauses.push(c);
        assert(final(self)@ =~= old(self)@.push(seq![a.neg(), b]));
    }

    /// Adds the clause `{!a, !b, c}`, i.e. the implication `(a & b) -> c`.
    pub fn add_cube_impl_lit(&mut self, a: Lit, b: Lit, c: Lit)
        ensures
            final(self)@ == old(self)@.push(seq![a.neg(), b.neg(), c]),
    {
        let cl = vec![a.negate(), b.negate(), c];
        self.clauses.push(cl);
        assert(final(self)@ =~= old(self)@.push(seq![a.neg(), b.neg(), c]));
    }
}

/// The ways in which encoding or enforcing a bound can fail.
#[derive(Clone, Copy, Debug, PartialEq, Eq, Structural)]
pub enum EncodingError {
    /// The lower limit of a requested range exceeds its upper limit.
    InvalidLimits,
    /// The bound refers to outputs that the current encoding does not cover.
    NotEncoded,
    /// The lower bound cannot be met with the total input weight.
    Unsat,
}

} // verus!
