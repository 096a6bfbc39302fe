//! Partition-and-heal: asynchronous until a fixed tick, then bounded delay.

use crate::sim::{PartitionHeal, Tick};
use vstd::prelude::*;

verus! {

pub fn partition_then_heal(heals_at: Tick, asynchronous_delay: Tick, synchronous_delay: Tick) -> (d: PartitionHeal)
    ensures
        d == (PartitionHeal { heals_at, asynchronous_delay, synchronous_delay }),
{
    PartitionHeal { heals_at, asynchronous_delay, synchronous_delay }
}

} // verus!
