use vstd::prelude::*;

verus! {

/// A tradable asset.
#[derive(Clone, Copy, Debug, PartialEq, Eq, Hash, Structural)]
pub enum Asset {
    BTC,
    LTC,
    ETH,
}

} // verus!
