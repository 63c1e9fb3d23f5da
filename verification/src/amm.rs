use vstd::prelude::*;

verus! {

/// A 20-byte account address, as used to identify a pool on chain.
pub type Address = [u8; 20];

/// Whether two addresses are the same.
pub fn address_eq(a: &Address, b: &Address) -> (r: bool)
    ensures
        r == (*a == *b),
{
    let mut i: usize = 0;
    while i < 20
        invariant
            0 <= i <= 20,
            forall|j: int| 0 <= j < i ==> a@[j] == b@[j],
        decreases 20 - i,
    {
        if a[i] != b[i] {
            assert(a@[i as int] != b@[i as int]);
            return false;
        }
        i = i + 1;
    }
    assert(a@ =~= b@);
    proof {
        vstd::array::axiom_array_ext_equal(*a, *b);
    }
    true
}

} // verus!

verus! {

/// The kinds of automated market maker that the state space tracks.
#[derive(Clone, Copy, Debug, PartialEq, Eq, Structural)]
pub enum AmmVariant {
    UniswapV2Pool,
    UniswapV3Pool,
    ERC4626Vault,
}

/// One automated market maker as the state space holds it: the address by
/// which it is found, its kind, and its pool state, which the state space
/// carries and snapshots but never interprets (its owner encodes it).
#[derive(Debug)]
pub struct Amm {
    pub address: Address,
    pub variant: AmmVariant,
    pub pool: Vec<u8>,
}

impl Amm {
    pub fn new(address: Address, variant: AmmVariant, pool: Vec<u8>) -> (r: Amm)
        ensures
            r.address == address,
            r.variant == variant,
            r.pool == pool,
    {
        Amm { address, variant, pool }
    }

    /// The address of the pool.
    pub fn address(&self) -> (r: Address)
        ensures
            r == self.address,
    {
        self.address
    }

    /// The kind of the pool.
    pub fn variant(&self) -> (r: AmmVariant)
        ensures
            r == self.variant,
    {
        self.variant
    }
}

} // verus!
