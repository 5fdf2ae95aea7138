pub mod combinations;
pub mod kdtree;

use vstd::prelude::*;

verus! {

/// The repetition cap actually enforced by the enumerator: a cap of zero, or
/// one larger than the selection length, means "no cap beyond the length".
pub open spec fn effective_cap(n: nat, m: nat) -> nat {
    if m == 0 || m > n {
        n
    } else {
        m
    }
}

} // verus!
