use vstd::prelude::*;

verus! {

/// The point in chain history at which a call executes: the current block
/// height and the current block time. The host supplies it with every call.
#[derive(Clone, Copy, Debug, PartialEq, Eq, Structural)]
pub struct BlockInfo {
    pub height: u64,
    pub time: u64,
}

/// A height- or time-bound validity marker on an approval.
///
/// An `AtHeight(h)` or `AtTime(t)` grant is valid only while the current
/// height or time is strictly below the bound: the boundary value itself is
/// already expired.
#[derive(Clone, Copy, Debug, PartialEq, Eq, Structural)]
pub enum Expiration {
    Never,
    AtHeight(u64),
    AtTime(u64),
}

impl View for Expiration {
    type V = Expiration;

    open spec fn view(&self) -> Expiration {
        *self
    }
}

impl DeepView for Expiration {
    type V = Expiration;

    open spec fn deep_view(&self) -> Expiration {
        *self
    }
}

impl Expiration {
    pub open spec fn spec_is_expired(&self, env: &BlockInfo) -> bool {
        match *self {
            Expiration::Never => false,
            Expiration::AtHeight(h) => env.height >= h,
            Expiration::AtTime(t) => env.time >= t,
        }
    }

    /// Whether this marker has elapsed at the given block.
    #[verifier::when_used_as_spec(spec_is_expired)]
    pub fn is_expired(&self, env: &BlockInfo) -> (expired: bool)
        ensures
            expired == self.spec_is_expired(env),
    {
        match self {
            Expiration::Never => false,
            Expiration::AtHeight(h) => env.height >= *h,
            Expiration::AtTime(t) => env.time >= *t,
        }
    }
}

} // verus!
