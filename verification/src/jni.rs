//! Version reported to the Android bindings.

use vstd::prelude::*;

verus! {

/// The package version of the fusion library, `0.1.0`.
pub open spec fn spec_fusion_version() -> Seq<char> {
    seq!['0', '.', '1', '.', '0']
}

/// The package version of the fusion library.
pub fn fusion_version() -> (v: &'static str)
    ensures
        v@ == spec_fusion_version(),
        v@.len() > 0,
{
    proof {
        reveal_strlit("0.1.0");
    }
    let v = "0.1.0";
    assert(v@ =~= spec_fusion_version());
    v
}

} // verus!
