use vstd::prelude::*;

verus! {

/// The node's listening endpoint, at address type `A`.
#[derive(Debug, Clone, Copy)]
pub struct NetworkManager<A> {
    pub address: A,
}

impl<A: Copy> NetworkManager<A> {
    /// A manager listening at `address`.
    pub fn new(address: A) -> (res: Self)
        ensures
            res.address == address,
    {
        NetworkManager { address }
    }
}

} // verus!
