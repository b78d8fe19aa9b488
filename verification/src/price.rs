//! Prices of accounts by the length of their names.

use vstd::prelude::*;

verus! {

/// The yearly prices of accounts of one length.
#[derive(Debug, Clone, Copy, PartialEq, Eq, Structural)]
pub struct PriceConfig {
    /// Number of characters in the account name.
    pub length: u8,
    /// Price of registering such an account for a year.
    pub new: u64,
    /// Price of renewing such an account for a year.
    pub renew: u64,
}

/// The prices of accounts of `length` characters.
pub fn gen_price_config(length: u8, new_price: u64, renew_price: u64) -> (config: PriceConfig)
    ensures
        config == (PriceConfig { length, new: new_price, renew: renew_price }),
{
    PriceConfig { length, new: new_price, renew: renew_price }
}

} // verus!
