//! Synthetic transaction sets: a small deterministic linear congruential
//! generator and the footprints it drives, for scheduling simulations.

use vstd::prelude::*;

use crate::footprint::TransactionFootprint;
use crate::keys::{contract_data, KeyModel};
use crate::text::{decimal, decimal_string};

verus! {

/// One step of the generator: multiply by 6364136223846793005 and add
/// 1442695040888963407, both wrapping at 64 bits.
pub open spec fn lcg_next(s: u64) -> u64 {
    vstd::wrapping::u64_specs::wrapping_add(
        vstd::wrapping::u64_specs::wrapping_mul(s, 6364136223846793005u64),
        1442695040888963407u64,
    )
}

/// The state after `k` steps from `s`.
pub open spec fn lcg_iter(s: u64, k: nat) -> u64
    decreases k,
{
    if k == 0 {
        s
    } else {
        lcg_next(lcg_iter(s, (k - 1) as nat))
    }
}

/// The starting state for a seed: the seed, or 1 for a zero seed.
pub open spec fn lcg_start(seed: u64) -> u64 {
    if seed > 1 {
        seed
    } else {
        1
    }
}

/// A small deterministic generator for synthetic footprints. Not
/// cryptographically secure; determinism is the point.
pub struct Lcg {
    state: u64,
}

impl View for Lcg {
    type V = u64;

    closed spec fn view(&self) -> u64 {
        self.state
    }
}

impl Lcg {
    /// A generator seeded with `seed` (a zero seed counts as 1).
    pub fn new(seed: u64) -> (r: Self)
        ensures
            r@ == lcg_start(seed),
    {
        Lcg { state: if seed > 1 { seed } else { 1 } }
    }

    /// Advances the generator and returns the new state.
    pub fn next_u64(&mut self) -> (r: u64)
        ensures
            final(self)@ == lcg_next(old(self)@),
            r == final(self)@,
    {
        self.state = self.state.wrapping_mul(6364136223846793005).wrapping_add(1442695040888963407);
        self.state
    }

    /// Advances the generator and returns the new state modulo `n`.
    pub fn range(&mut self, n: usize) -> (r: usize)
        requires
            n > 0,
        ensures
            final(self)@ == lcg_next(old(self)@),
            r == final(self)@ % (n as u64),
    {
        (self.next_u64() % (n as u64)) as usize
    }
}

/// The storage key of synthetic transaction `i` drawing `r`: every fifth
/// transaction writes a `shard:` key, the others a `k` key.
pub open spec fn synthetic_key(i: int, r: nat) -> Seq<char> {
    if i % 5 == 0 {
        "shard:"@ + decimal(r)
    } else {
        "k"@ + decimal(r)
    }
}

/// The footprint of synthetic transaction `i`: it reads the `C1` config key
/// and writes the `C1` key it draws, the `i + 1`-th draw of the generator.
pub open spec fn synthetic_footprint(fp: TransactionFootprint, i: int, seed: u64, distinct: nat) -> bool {
    let draw = (lcg_iter(lcg_start(seed), (i + 1) as nat) % (distinct as u64)) as nat;
    &&& fp.wf()
    &&& fp.ro() == Set::<KeyModel>::empty().insert((2int, "C1"@, "config"@))
    &&& fp.rw() == Set::<KeyModel>::empty().insert((2int, "C1"@, synthetic_key(i, draw)))
}

/// A synthetic set of `transactions` footprints over `distinct` write keys,
/// drawn from a generator seeded with `seed`.
pub fn synthetic_footprints(transactions: usize, distinct: usize, seed: u64) -> (r: Vec<TransactionFootprint>)
    requires
        transactions > 0 ==> distinct > 0,
    ensures
        r@.len() == transactions,
        forall|i: int| 0 <= i < transactions ==> synthetic_footprint(#[trigger] r@[i], i, seed, distinct as nat),
{
    let mut rng = Lcg::new(seed);
    let mut out: Vec<TransactionFootprint> = Vec::new();
    let mut i: usize = 0;
    while i < transactions
        invariant
            i <= transactions,
            transactions > 0 ==> distinct > 0,
            out@.len() == i,
            rng@ == lcg_iter(lcg_start(seed), i as nat),
            forall|k: int| 0 <= k < i ==> synthetic_footprint(#[trigger] out@[k], k, seed, distinct as nat),
        decreases transactions - i,
    {
        let empty = TransactionFootprint::new();
        proof {
            assert(empty.ro() =~= Set::<KeyModel>::empty());
            assert(empty.rw() =~= Set::<KeyModel>::empty());
        }
        let fp = empty.read(contract_data("C1", "config"));
        let draw = rng.range(distinct);
        let mut name = if i % 5 == 0 {
            String::from_str("shard:")
        } else {
            String::from_str("k")
        };
        name.append(decimal_string(draw as u64).as_str());
        let fp = fp.read_write(contract_data("C1", name.as_str()));
        proof {
            assert(name@ == synthetic_key(i as int, draw as nat));
        }
        out.push(fp);
        i = i + 1;
    }
    out
}

} // verus!
