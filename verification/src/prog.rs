use vstd::prelude::*;

verus! {

/// One circuit instruction over the fixed gate set.  Qubit indices are
/// plain integers; `Cx` carries control then target.
#[derive(Clone, Copy, PartialEq, Eq, Structural, Debug)]
pub enum Ins {
    H(u32),
    X(u32),
    T(u32),
    Tdg(u32),
    Cx(u32, u32),
}

impl Ins {
    /// Every qubit index named by the instruction lies below n.
    pub open spec fn spec_in_range(self, n: u32) -> bool {
        match self {
            Ins::H(i) => i < n,
            Ins::X(i) => i < n,
            Ins::T(i) => i < n,
            Ins::Tdg(i) => i < n,
            Ins::Cx(c, t) => c < n && t < n,
        }
    }

    /// Runtime check matching `spec_in_range`.
    pub fn in_range(self, n: u32) -> (r: bool)
        ensures
            r == self.spec_in_range(n),
    {
        match self {
            Ins::H(i) => i < n,
            Ins::X(i) => i < n,
            Ins::T(i) => i < n,
            Ins::Tdg(i) => i < n,
            Ins::Cx(c, t) => c < n && t < n,
        }
    }
}

/// A parsed circuit: register sizes as declared in the source text, the
/// number of distinct qubits actually used, and the instruction sequence.
/// Produced by an external parser; the engine only reads `instrs` together
/// with a qubit count.
#[derive(Debug)]
pub struct Prog {
    pub qreg: u32,
    pub qreg_used: u32,
    pub creg: u32,
    pub instrs: Vec<Ins>,
}

} // verus!
