//! What the RPC layer holds and hands out: the handle to the chain client,
//! and the result of a gas estimation.

use vstd::prelude::*;
use std::marker::PhantomData;
use std::sync::Arc;

verus! {

/// The result of a gas estimation: the gas that was used, and the status
/// code that the virtual machine ended with.
#[derive(Clone, Copy, Debug, PartialEq, Eq)]
pub struct Estimation {
    pub gas_used: u64,
    pub status_code: u64,
}

impl Estimation {
    /// An estimation of the two numbers that the runtime reported.
    pub fn new(gas_used: u64, status_code: u64) -> (res: Estimation)
        ensures
            res.gas_used == gas_used,
            res.status_code == status_code,
    {
        Estimation { gas_used, status_code }
    }
}

/// The block that a request is answered for: the one it names, or else
/// the best block.
pub fn block_or_best<H>(at: Option<H>, best: H) -> (res: H)
    ensures
        res == (match at {
            Some(hash) => hash,
            None => best,
        }),
{
    match at {
        Some(hash) => hash,
        None => best,
    }
}

/// The RPC handler: a shared handle to the chain client `C`, for blocks of
/// type `P`.
pub struct MVMApi<C, P> {
    client: Arc<C>,
    _marker: PhantomData<P>,
}

impl<C, P> MVMApi<C, P> {
    /// The client that the handler was made with.
    pub closed spec fn client_handle(&self) -> Arc<C> {
        self.client
    }

    /// A handler over `client`.
    pub fn new(client: Arc<C>) -> (res: Self)
        ensures
            res.client_handle() == client,
    {
        MVMApi { client, _marker: PhantomData }
    }

    /// The client that the handler was made with.
    pub fn client(&self) -> (res: &Arc<C>)
        ensures
            *res == self.client_handle(),
    {
        &self.client
    }
}

} // verus!
