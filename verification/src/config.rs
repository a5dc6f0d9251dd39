use crate::amount::Amount;
use crate::bytesrepr::pow256;
use vstd::prelude::*;

verus! {

/// The number of parts in which the relative limits are counted.
pub const MILLION: u64 = 1_000_000;

/// The delays, capacities and limits under which stake is bonded and unbonded.
#[derive(Debug, PartialEq, Eq)]
pub struct Config {
    /// The time from a bonding request until the stake counts.
    pub bond_delay: u64,
    /// The time from an unbonding request until the stake is paid out.
    pub unbond_delay: u64,
    /// The largest number of pending bonding requests.
    pub max_bond_len: usize,
    /// The largest number of pending unbonding requests.
    pub max_unbond_len: usize,
    /// The largest difference between the largest and the smallest stake.
    pub max_spread: Amount,
    /// The largest increase of stake in one bonding request.
    pub max_increase: Amount,
    /// The largest decrease of stake in one unbonding request.
    pub max_decrease: Amount,
    /// The largest increase of stake in one bonding request, in millionths of the
    /// total stake.
    pub max_rel_increase: u64,
    /// The largest decrease of stake in one unbonding request, in millionths of the
    /// total stake.
    pub max_rel_decrease: u64,
}

impl Default for Config {
    /// An hour until a bond counts and a day until a payout; ten pending bonding
    /// requests and a hundred unbonding ones; absolute limits of 2^512 - 1, too high
    /// to refuse anything in practice; half of the total stake as the relative limit
    /// of a bond and a tenth as that of an unbonding.
    fn default() -> (r: Config)
        ensures
            r.bond_delay == 3600,
            r.unbond_delay == 86400,
            r.max_bond_len == 10,
            r.max_unbond_len == 100,
            r.max_spread@ == pow256(64) - 1,
            r.max_increase@ == pow256(64) - 1,
            r.max_decrease@ == pow256(64) - 1,
            r.max_rel_increase == 500_000,
            r.max_rel_decrease == 100_000,
    {
        Config {
            bond_delay: 3600,
            unbond_delay: 86400,
            max_bond_len: 10,
            max_unbond_len: 100,
            max_spread: Amount::largest(64),
            max_increase: Amount::largest(64),
            max_decrease: Amount::largest(64),
            max_rel_increase: 500_000,
            max_rel_decrease: 100_000,
        }
    }
}

} // verus!
