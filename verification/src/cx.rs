//! The CX gate.

use vstd::prelude::*;
use vstd::std_specs::convert::FromSpecImpl;

verus! {

/// A CX gate on two qubits.
#[derive(Clone, Copy, PartialEq, Eq, Structural, Hash, Debug)]
pub struct CX {
    pub ctrl: u8,
    pub tgt: u8,
}

impl CX {
    /// A gate that the search may emit: two distinct qubits, each below 16.
    pub open spec fn wf(&self) -> bool {
        self.ctrl < 16 && self.tgt < 16 && self.ctrl != self.tgt
    }

    /// Tests whether this gate acts on two distinct qubits below 16.
    pub fn is_valid(&self) -> (b: bool)
        ensures
            b == self.wf(),
    {
        self.ctrl < 16 && self.tgt < 16 && self.ctrl != self.tgt
    }
}

impl From<(usize, usize)> for CX {
    fn from(pair: (usize, usize)) -> (cx: CX) {
        CX { ctrl: #[verifier::truncate] (pair.0 as u8), tgt: #[verifier::truncate] (pair.1 as u8) }
    }
}

impl FromSpecImpl<(usize, usize)> for CX {
    open spec fn obeys_from_spec() -> bool {
        true
    }

    open spec fn from_spec(pair: (usize, usize)) -> CX {
        CX { ctrl: pair.0 as u8, tgt: pair.1 as u8 }
    }
}

} // verus!
