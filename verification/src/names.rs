//! Lists of names, each name a byte string.

use vstd::prelude::*;

verus! {

/// The byte strings that a list of names holds, in the list's order.
pub open spec fn views(names: Seq<Vec<u8>>) -> Seq<Seq<u8>> {
    names.map_values(|name: Vec<u8>| name@)
}

} // verus!
