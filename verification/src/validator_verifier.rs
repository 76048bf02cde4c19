//! The epoch's validator set: per-author stakes and the quorum test.
//!
//! Authors are indices `0 .. len`. A set of authors is a quorum when its
//! aggregate stake exceeds two thirds of the total stake.

use vstd::prelude::*;

verus! {

/// Stake-weighted membership of one epoch.
pub struct Verifier {
    /// Stake of each author, indexed by author id.
    pub stakes: Vec<u64>,
    /// Total stake; equals the sum of `stakes`.
    pub total_stake: u64,
}

/// Sum of the first `n` stakes.
pub open spec fn stake_sum(stakes: Seq<u64>, n: int) -> int
    decreases n,
{
    if n <= 0 {
        0
    } else {
        stake_sum(stakes, n - 1) + stakes[n - 1]
    }
}

/// Partial sums of stakes are non-negative.
pub proof fn lemma_stake_sum_nonneg(stakes: Seq<u64>, n: int)
    ensures
        0 <= stake_sum(stakes, n),
    decreases n,
{
    if n > 0 {
        lemma_stake_sum_nonneg(stakes, n - 1);
    }
}

/// Partial sums of stakes are monotone in the number of authors summed.
pub proof fn lemma_stake_sum_monotone(stakes: Seq<u64>, a: int, b: int)
    requires
        0 <= a <= b,
    ensures
        0 <= stake_sum(stakes, a) <= stake_sum(stakes, b),
    decreases b - a,
{
    lemma_stake_sum_nonneg(stakes, a);
    if a < b {
        lemma_stake_sum_monotone(stakes, a, b - 1);
    }
}

impl Verifier {
    /// The verifier is well formed: the recorded total is the sum of the
    /// stakes (so every partial sum fits in a machine word).
    pub open spec fn wf(self) -> bool {
        self.total_stake == stake_sum(self.stakes@, self.stakes@.len() as int)
    }

    /// Number of validators in the epoch.
    pub open spec fn spec_len(self) -> u64 {
        self.stakes@.len() as u64
    }

    /// A stake amount reaches quorum when it exceeds two thirds of the total.
    pub open spec fn is_quorum(self, stake: int) -> bool {
        3 * stake > 2 * self.total_stake
    }

    /// Build a verifier from per-author stakes; fails when the total stake
    /// does not fit in a machine word.
    pub fn new(stakes: Vec<u64>) -> (r: Option<Verifier>)
        ensures
            match r {
                Some(v) => {
                    &&& v.wf()
                    &&& v.stakes@ == stakes@
                    &&& stake_sum(stakes@, stakes@.len() as int) <= u64::MAX
                },
                None => stake_sum(stakes@, stakes@.len() as int) > u64::MAX,
            },
    {
        let mut total: u64 = 0;
        let mut i: usize = 0;
        while i < stakes.len()
            invariant
                0 <= i <= stakes@.len(),
                total == stake_sum(stakes@, i as int),
            decreases stakes@.len() - i,
        {
            proof {
                lemma_stake_sum_monotone(stakes@, i as int, i + 1);
            }
            let s = stakes[i];
            if total > u64::MAX - s {
                proof {
                    lemma_stake_sum_monotone(stakes@, i + 1, stakes@.len() as int);
                }
                return None;
            }
            total = total + s;
            i = i + 1;
        }
        Some(Verifier { stakes, total_stake: total })
    }

    /// Number of validators in the epoch.
    pub fn len(&self) -> (r: u64)
        ensures
            r == self.spec_len(),
    {
        self.stakes.len() as u64
    }

    /// Stake of one author.
    pub fn stake_of(&self, author: u64) -> (r: u64)
        requires
            author < self.spec_len(),
        ensures
            r == self.stakes@[author as int],
    {
        let n: usize = self.stakes.len();
        assert(author < n as u64);
        self.stakes[author as usize]
    }

    /// Whether an aggregate stake reaches quorum.
    pub fn quorum_check(&self, stake: u64) -> (r: bool)
        ensures
            r == self.is_quorum(stake as int),
    {
        (stake as u128) * 3 > (self.total_stake as u128) * 2
    }
}

} // verus!
