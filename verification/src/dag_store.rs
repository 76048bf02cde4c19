//! In-memory DAG of certified nodes, keyed by `(round, author)`.
//!
//! The store maintains three invariants: keys are unique, every node belongs
//! to the store's epoch and to the validator set and carries a well-formed
//! strong-link set, and every strong link references a node that is present
//! (parent closure). Quorum queries and the backward reachability walk are
//! specified exactly, so that strong-link selection and payload-filter
//! construction are deterministic functions of the DAG contents.

use vstd::prelude::*;
use vstd::pervasive::VecAdditionalExecFns;

use crate::dag_driver::DagDriverError;
use crate::types::{metadata_of, CertifiedNode, NodeMetadata, NodeView};
use crate::validator_verifier::{lemma_stake_sum_monotone, stake_sum, Verifier};

verus! {

/// The strong-link set of a node is structurally sound: links point at the
/// previous round within the same epoch, authors are valid and strictly
/// ascending, and (past the genesis round) the linked authors form a quorum.
/// Certification establishes this before a node reaches the store.
pub open spec fn links_well_formed(n: NodeView, verifier: Verifier) -> bool {
    &&& n.round < u64::MAX
    &&& forall|k: int|
        0 <= k < n.strong_links.len() ==> {
            &&& (#[trigger] n.strong_links[k]).round + 1 == n.round
            &&& n.strong_links[k].epoch == n.epoch
            &&& n.strong_links[k].author < verifier.spec_len()
        }
    &&& forall|k1: int, k2: int|
        0 <= k1 < k2 < n.strong_links.len() ==> (#[trigger] n.strong_links[k1]).author
            < (#[trigger] n.strong_links[k2]).author
    &&& n.round >= 2 ==> verifier.is_quorum(
        links_stake(verifier, n.strong_links, n.strong_links.len() as int),
    )
}

/// Aggregate stake of the authors of the first `k` links.
pub open spec fn links_stake(verifier: Verifier, links: Seq<NodeMetadata>, k: int) -> int
    decreases k,
{
    if k <= 0 {
        0
    } else {
        links_stake(verifier, links, k - 1) + verifier.stakes@[links[k - 1].author as int]
    }
}

/// The DAG store: every certified node of the current epoch this replica
/// knows, keyed by `(round, author)`.
pub struct Dag {
    /// Epoch whose nodes this store holds.
    pub epoch: u64,
    /// The nodes, in insertion order; keys are unique.
    pub nodes: Vec<CertifiedNode>,
}

impl Dag {
    /// Some node occupies the key `(round, author)`.
    pub open spec fn has_node_at(self, round: u64, author: u64) -> bool {
        exists|i: int|
            0 <= i < self.nodes@.len() && (#[trigger] self.nodes@[i]).node.round == round
                && self.nodes@[i].node.author == author
    }

    /// Index of the node at `(round, author)`.
    pub open spec fn index_of(self, round: u64, author: u64) -> int {
        choose|i: int|
            0 <= i < self.nodes@.len() && (#[trigger] self.nodes@[i]).node.round == round
                && self.nodes@[i].node.author == author
    }

    /// The node at `(round, author)`.
    pub open spec fn node_at(self, round: u64, author: u64) -> CertifiedNode {
        self.nodes@[self.index_of(round, author)]
    }

    /// The metadata of the node at `(round, author)`.
    pub open spec fn meta_at(self, round: u64, author: u64) -> NodeMetadata {
        metadata_of(self.node_at(round, author).node@)
    }

    /// Membership by metadata: the key is occupied and the occupant's
    /// metadata (digest included) is `m`.
    pub open spec fn contains_meta(self, m: NodeMetadata) -> bool {
        self.has_node_at(m.round, m.author) && self.meta_at(m.round, m.author) == m
    }

    /// No two stored nodes share a key.
    pub open spec fn keys_distinct(self) -> bool {
        forall|i: int, j: int|
            #![trigger self.nodes@[i], self.nodes@[j]]
            0 <= i < j < self.nodes@.len() ==> !(self.nodes@[i].node.round
                == self.nodes@[j].node.round && self.nodes@[i].node.author
                == self.nodes@[j].node.author)
    }

    /// Every stored node belongs to this epoch and validator set and carries
    /// a well-formed strong-link set.
    pub open spec fn nodes_ok(self, verifier: Verifier) -> bool {
        forall|i: int|
            0 <= i < self.nodes@.len() ==> {
                &&& (#[trigger] self.nodes@[i]).node.epoch == self.epoch
                &&& self.nodes@[i].node.author < verifier.spec_len()
                &&& links_well_formed(self.nodes@[i].node@, verifier)
            }
    }

    /// Parent closure: every strong link of every stored node references a
    /// node that is present.
    pub open spec fn parents_closed(self) -> bool {
        forall|i: int, k: int|
            #![trigger self.nodes@[i].node.strong_links@[k]]
            0 <= i < self.nodes@.len() && 0 <= k < self.nodes@[i].node.strong_links@.len()
                ==> self.contains_meta(self.nodes@[i].node.strong_links@[k])
    }

    /// Store invariant.
    pub open spec fn wf(self, verifier: Verifier) -> bool {
        &&& self.keys_distinct()
        &&& self.nodes_ok(verifier)
        &&& self.parents_closed()
    }

    /// A key's occupant is whatever node is stored at a matching index.
    pub proof fn lemma_node_at_is(self, round: u64, author: u64, i: int)
        requires
            self.keys_distinct(),
            0 <= i < self.nodes@.len(),
            self.nodes@[i].node.round == round,
            self.nodes@[i].node.author == author,
        ensures
            self.has_node_at(round, author),
            self.index_of(round, author) == i,
            self.node_at(round, author) == self.nodes@[i],
    {
        assert(self.has_node_at(round, author));
        let j = self.index_of(round, author);
        assert(0 <= j < self.nodes@.len() && self.nodes@[j].node.round == round
            && self.nodes@[j].node.author == author);
        if i != j {
            if i < j {
                assert(!(self.nodes@[i].node.round == self.nodes@[j].node.round
                    && self.nodes@[i].node.author == self.nodes@[j].node.author));
            } else {
                assert(!(self.nodes@[j].node.round == self.nodes@[i].node.round
                    && self.nodes@[j].node.author == self.nodes@[i].node.author));
            }
        }
    }

    /// An empty store for one epoch.
    pub fn new(epoch: u64) -> (r: Dag)
        ensures
            r.epoch == epoch,
            r.nodes@.len() == 0,
            forall|v: Verifier| r.wf(v),
    {
        Dag { epoch, nodes: Vec::new() }
    }

    /// Look up the node occupying `(round, author)`.
    pub fn get(&self, round: u64, author: u64) -> (res: Option<&CertifiedNode>)
        requires
            self.keys_distinct(),
        ensures
            match res {
                Some(n) => self.has_node_at(round, author) && *n == self.node_at(round, author),
                None => !self.has_node_at(round, author),
            },
    {
        let mut i: usize = 0;
        while i < self.nodes.len()
            invariant
                0 <= i <= self.nodes@.len(),
                self.keys_distinct(),
                forall|j: int|
                    0 <= j < i ==> !((#[trigger] self.nodes@[j]).node.round == round
                        && self.nodes@[j].node.author == author),
            decreases self.nodes@.len() - i,
        {
            let n = &self.nodes[i];
            if n.node.round == round && n.node.author == author {
                proof {
                    self.lemma_node_at_is(round, author, i as int);
                }
                return Some(n);
            }
            i = i + 1;
        }
        None
    }

    /// Membership by metadata digest.
    pub fn exists_meta(&self, metadata: &NodeMetadata) -> (r: bool)
        requires
            self.keys_distinct(),
        ensures
            r == self.contains_meta(*metadata),
    {
        match self.get(metadata.round, metadata.author) {
            Some(n) => {
                let m = n.metadata();
                m == *metadata
            },
            None => false,
        }
    }

    /// Conjunctive membership: every metadata record is present.
    pub fn all_exists(&self, metadata: &Vec<NodeMetadata>) -> (r: bool)
        requires
            self.keys_distinct(),
        ensures
            r == forall|k: int|
                0 <= k < metadata@.len() ==> self.contains_meta(#[trigger] metadata@[k]),
    {
        let mut k: usize = 0;
        while k < metadata.len()
            invariant
                0 <= k <= metadata@.len(),
                self.keys_distinct(),
                forall|j: int| 0 <= j < k ==> self.contains_meta(#[trigger] metadata@[j]),
            decreases metadata@.len() - k,
        {
            if !self.exists_meta(&metadata[k]) {
                return false;
            }
            k = k + 1;
        }
        true
    }

    /// Insert a certified node.
    ///
    /// Fails with `InvalidEpoch` when the node's epoch or author does not
    /// belong to this store's epoch, `DuplicateNode` when the key is already
    /// occupied, and `UnknownParents` when some strong link is absent. A
    /// failed insert leaves the store unchanged.
    pub fn add_node(&mut self, node: CertifiedNode, verifier: &Verifier) -> (res: Result<
        (),
        DagDriverError,
    >)
        requires
            old(self).wf(*verifier),
            links_well_formed(node.node@, *verifier),
        ensures
            final(self).wf(*verifier),
            final(self).epoch == old(self).epoch,
            match res {
                Ok(_) => {
                    &&& node.node.epoch == old(self).epoch
                    &&& node.node.author < verifier.spec_len()
                    &&& !old(self).has_node_at(node.node.round, node.node.author)
                    &&& forall|k: int|
                        0 <= k < node.node.strong_links@.len() ==> old(self).contains_meta(
                            #[trigger] node.node.strong_links@[k],
                        )
                    &&& final(self).nodes@ == old(self).nodes@.push(node)
                },
                Err(DagDriverError::InvalidEpoch) => {
                    &&& (node.node.epoch != old(self).epoch || node.node.author
                        >= verifier.spec_len())
                    &&& *final(self) == *old(self)
                },
                Err(DagDriverError::DuplicateNode) => {
                    &&& node.node.epoch == old(self).epoch
                    &&& node.node.author < verifier.spec_len()
                    &&& old(self).has_node_at(node.node.round, node.node.author)
                    &&& *final(self) == *old(self)
                },
                Err(DagDriverError::UnknownParents) => {
                    &&& node.node.epoch == old(self).epoch
                    &&& node.node.author < verifier.spec_len()
                    &&& !old(self).has_node_at(node.node.round, node.node.author)
                    &&& !(forall|k: int|
                        0 <= k < node.node.strong_links@.len() ==> old(self).contains_meta(
                            #[trigger] node.node.strong_links@[k],
                        ))
                    &&& *final(self) == *old(self)
                },
                Err(DagDriverError::MissingParents) => false,
            },
    {
        if node.node.epoch != self.epoch || node.node.author >= verifier.len() {
            return Err(DagDriverError::InvalidEpoch);
        }
        if self.get(node.node.round, node.node.author).is_some() {
            return Err(DagDriverError::DuplicateNode);
        }
        if !self.all_exists(&node.node.strong_links) {
            return Err(DagDriverError::UnknownParents);
        }
        let ghost pre = *self;
        let ghost new_node = node;
        self.nodes.push(node);
        proof {
            let post = *self;
            assert(post.nodes@ == pre.nodes@.push(new_node));
            let n = post.nodes@.len() - 1;
            // Keys stay distinct: the new key was checked absent.
            assert forall|i: int, j: int|
                #![trigger post.nodes@[i], post.nodes@[j]]
                0 <= i < j < post.nodes@.len() implies !(post.nodes@[i].node.round
                == post.nodes@[j].node.round && post.nodes@[i].node.author
                == post.nodes@[j].node.author) by {
                if j < n {
                    assert(post.nodes@[i] == pre.nodes@[i]);
                    assert(post.nodes@[j] == pre.nodes@[j]);
                } else {
                    assert(post.nodes@[j] == new_node);
                    assert(post.nodes@[i] == pre.nodes@[i]);
                    if post.nodes@[i].node.round == new_node.node.round
                        && post.nodes@[i].node.author == new_node.node.author {
                        assert(pre.has_node_at(new_node.node.round, new_node.node.author));
                    }
                }
            }
            // Everything present before stays present, at the same key.
            assert forall|m: NodeMetadata| pre.contains_meta(m) implies #[trigger] post.contains_meta(
                m,
            ) by {
                let i = pre.index_of(m.round, m.author);
                assert(post.nodes@[i] == pre.nodes@[i]);
                post.lemma_node_at_is(m.round, m.author, i);
            }
            assert(post.nodes_ok(*verifier)) by {
                assert forall|i: int| 0 <= i < post.nodes@.len() implies {
                    &&& (#[trigger] post.nodes@[i]).node.epoch == post.epoch
                    &&& post.nodes@[i].node.author < verifier.spec_len()
                    &&& links_well_formed(post.nodes@[i].node@, *verifier)
                } by {
                    if i < n {
                        assert(post.nodes@[i] == pre.nodes@[i]);
                    } else {
                        assert(post.nodes@[i] == new_node);
                    }
                }
            }
            assert(post.parents_closed()) by {
                assert forall|i: int, k: int|
                    #![trigger post.nodes@[i].node.strong_links@[k]]
                    0 <= i < post.nodes@.len() && 0 <= k
                        < post.nodes@[i].node.strong_links@.len() implies post.contains_meta(
                    post.nodes@[i].node.strong_links@[k],
                ) by {
                    if i < n {
                        assert(post.nodes@[i] == pre.nodes@[i]);
                        assert(pre.contains_meta(pre.nodes@[i].node.strong_links@[k]));
                    } else {
                        assert(post.nodes@[i] == new_node);
                        assert(pre.contains_meta(new_node.node.strong_links@[k]));
                    }
                }
            }
        }
        Ok(())
    }

    /// Maximum round among the first `n` stored nodes (0 when there are none).
    pub open spec fn max_round_upto(self, n: int) -> u64
        decreases n,
    {
        if n <= 0 {
            0
        } else {
            let prev = self.max_round_upto(n - 1);
            if self.nodes@[n - 1].node.round > prev {
                self.nodes@[n - 1].node.round
            } else {
                prev
            }
        }
    }

    /// The highest round with any node present; 0 for an empty store.
    pub open spec fn spec_highest_round(self) -> u64 {
        self.max_round_upto(self.nodes@.len() as int)
    }

    /// The highest round bounds every stored round, and is itself a stored
    /// round unless it is 0.
    pub proof fn lemma_max_round_upto(self, n: int)
        requires
            0 <= n <= self.nodes@.len(),
        ensures
            forall|i: int|
                0 <= i < n ==> (#[trigger] self.nodes@[i]).node.round <= self.max_round_upto(n),
            self.max_round_upto(n) != 0 ==> exists|i: int|
                0 <= i < n && (#[trigger] self.nodes@[i]).node.round == self.max_round_upto(n),
        decreases n,
    {
        if n > 0 {
            self.lemma_max_round_upto(n - 1);
        }
    }

    /// `highest_round`; non-decreasing as the DAG grows.
    pub fn highest_round(&self) -> (r: u64)
        ensures
            r == self.spec_highest_round(),
            forall|i: int|
                0 <= i < self.nodes@.len() ==> (#[trigger] self.nodes@[i]).node.round <= r,
            r != 0 ==> exists|i: int|
                0 <= i < self.nodes@.len() && (#[trigger] self.nodes@[i]).node.round == r,
    {
        let mut best: u64 = 0;
        let mut i: usize = 0;
        while i < self.nodes.len()
            invariant
                0 <= i <= self.nodes@.len(),
                best == self.max_round_upto(i as int),
            decreases self.nodes@.len() - i,
        {
            let round = self.nodes[i].node.round;
            if round > best {
                best = round;
            }
            i = i + 1;
        }
        proof {
            self.lemma_max_round_upto(self.nodes@.len() as int);
        }
        best
    }

    /// Aggregate stake of the authors below `a_end` that have a node at
    /// `round`.
    pub open spec fn round_stake(self, verifier: Verifier, round: u64, a_end: int) -> int
        decreases a_end,
    {
        if a_end <= 0 {
            0
        } else {
            self.round_stake(verifier, round, a_end - 1) + if self.has_node_at(
                round,
                (a_end - 1) as u64,
            ) {
                verifier.stakes@[a_end - 1]
            } else {
                0
            }
        }
    }

    /// Metadata of the nodes at `round` whose author is below `a_end`, in
    /// ascending author order.
    pub open spec fn links_at(self, round: u64, a_end: int) -> Seq<NodeMetadata>
        decreases a_end,
    {
        if a_end <= 0 {
            Seq::empty()
        } else {
            let rest = self.links_at(round, a_end - 1);
            if self.has_node_at(round, (a_end - 1) as u64) {
                rest.push(self.meta_at(round, (a_end - 1) as u64))
            } else {
                rest
            }
        }
    }

    /// A strong-link set can be formed from `round`: the genesis round is
    /// always complete; any later round needs a quorum of present authors.
    pub open spec fn strong_links_available(self, verifier: Verifier, round: u64) -> bool {
        round == 0 || verifier.is_quorum(
            self.round_stake(verifier, round, verifier.spec_len() as int),
        )
    }

    /// Round stake is non-negative and bounded by the partial stake sum.
    pub proof fn lemma_round_stake_bounds(self, verifier: Verifier, round: u64, a_end: int)
        requires
            0 <= a_end,
        ensures
            0 <= self.round_stake(verifier, round, a_end) <= stake_sum(verifier.stakes@, a_end),
        decreases a_end,
    {
        if a_end > 0 {
            self.lemma_round_stake_bounds(verifier, round, a_end - 1);
        }
    }

    /// Round stake is monotone in the author bound.
    pub proof fn lemma_round_stake_monotone(self, verifier: Verifier, round: u64, a: int, b: int)
        requires
            0 <= a <= b,
        ensures
            self.round_stake(verifier, round, a) <= self.round_stake(verifier, round, b),
        decreases b - a,
    {
        if a < b {
            self.lemma_round_stake_monotone(verifier, round, a, b - 1);
        }
    }

    /// Shape of the strong-link selection: element `j` is the metadata of a
    /// present node of `round`, authors are strictly ascending and below
    /// `a_end`, and (under `nodes_ok`) links carry this store's epoch and
    /// point one round down.
    #[verifier::rlimit(60)]
    pub proof fn lemma_links_at_props(self, verifier: Verifier, round: u64, a_end: int)
        requires
            self.keys_distinct(),
            self.nodes_ok(verifier),
            0 <= a_end <= u64::MAX,
        ensures
            forall|j: int|
                0 <= j < self.links_at(round, a_end).len() ==> {
                    let m = #[trigger] self.links_at(round, a_end)[j];
                    &&& m.author < a_end
                    &&& m.round == round
                    &&& m.epoch == self.epoch
                    &&& self.has_node_at(round, m.author)
                    &&& m == self.meta_at(round, m.author)
                },
            forall|j1: int, j2: int|
                0 <= j1 < j2 < self.links_at(round, a_end).len() ==> self.links_at(
                    round,
                    a_end,
                )[j1].author < self.links_at(round, a_end)[j2].author,
        decreases a_end,
    {
        if a_end > 0 {
            self.lemma_links_at_props(verifier, round, a_end - 1);
            let a = (a_end - 1) as u64;
            let rest = self.links_at(round, a_end - 1);
            let s = self.links_at(round, a_end);
            if self.has_node_at(round, a) {
                let i = self.index_of(round, a);
                assert(0 <= i < self.nodes@.len() && self.nodes@[i].node.round == round
                    && self.nodes@[i].node.author == a);
                assert(self.meta_at(round, a).author == a);
                assert(self.meta_at(round, a).round == round);
                assert(self.meta_at(round, a).epoch == self.epoch);
                assert(s == rest.push(self.meta_at(round, a)));
                assert(forall|j: int| 0 <= j < rest.len() ==> s[j] == rest[j]);
                assert(s[s.len() - 1] == self.meta_at(round, a));
            } else {
                assert(s == rest);
            }
        }
    }

    /// The stake behind the selected links equals the round stake: selection
    /// keeps exactly the present authors.
    #[verifier::rlimit(100)]
    pub proof fn lemma_links_at_stake(self, verifier: Verifier, round: u64, a_end: int)
        requires
            self.keys_distinct(),
            0 <= a_end <= u64::MAX,
        ensures
            links_stake(verifier, self.links_at(round, a_end), self.links_at(round, a_end).len() as int)
                == self.round_stake(verifier, round, a_end),
        decreases a_end,
    {
        if a_end > 0 {
            self.lemma_links_at_stake(verifier, round, a_end - 1);
            let a = (a_end - 1) as u64;
            let rest = self.links_at(round, a_end - 1);
            if self.has_node_at(round, a) {
                let m = self.meta_at(round, a);
                let s = rest.push(m);
                assert(self.links_at(round, a_end) == s);
                lemma_links_stake_shorter(verifier, rest, m, rest.len() as int);
                let i = self.index_of(round, a);
                assert(0 <= i < self.nodes@.len() && self.nodes@[i].node.round == round
                    && self.nodes@[i].node.author == a);
                assert(m.author == a);
                assert(s.len() == rest.len() + 1);
                assert(s[s.len() - 1] == m);
                assert(links_stake(verifier, s, s.len() as int) == links_stake(
                    verifier,
                    s,
                    rest.len() as int,
                ) + verifier.stakes@[a as int]);
                assert(self.round_stake(verifier, round, a_end) == self.round_stake(
                    verifier,
                    round,
                    a_end - 1,
                ) + verifier.stakes@[a_end - 1]);
            } else {
                assert(self.links_at(round, a_end) == rest);
                assert(self.round_stake(verifier, round, a_end) == self.round_stake(
                    verifier,
                    round,
                    a_end - 1,
                ));
            }
        }
    }

    /// Quorum-of-links stake is covered by the round stake: for strictly
    /// ascending links all present at `round`, the link stake up to `j` is at
    /// most the round stake up to the `j`-th author + 1.
    pub proof fn lemma_links_stake_covered(
        self,
        verifier: Verifier,
        links: Seq<NodeMetadata>,
        round: u64,
        j: int,
    )
        requires
            self.keys_distinct(),
            0 < j <= links.len(),
            forall|k: int|
                0 <= k < links.len() ==> (#[trigger] links[k]).author < verifier.spec_len(),
            forall|k1: int, k2: int|
                0 <= k1 < k2 < links.len() ==> (#[trigger] links[k1]).author
                    < (#[trigger] links[k2]).author,
            forall|k: int|
                0 <= k < links.len() ==> self.has_node_at(round, (#[trigger] links[k]).author),
        ensures
            links_stake(verifier, links, j) <= self.round_stake(
                verifier,
                round,
                links[j - 1].author + 1,
            ),
        decreases j,
    {
        let a = links[j - 1].author;
        assert(self.has_node_at(round, a));
        assert(self.round_stake(verifier, round, a + 1) == self.round_stake(verifier, round, a as int)
            + verifier.stakes@[a as int]);
        assert(links_stake(verifier, links, j) == links_stake(verifier, links, j - 1)
            + verifier.stakes@[a as int]);
        if j == 1 {
            assert(links_stake(verifier, links, 0) == 0);
            self.lemma_round_stake_bounds(verifier, round, a as int);
        } else {
            self.lemma_links_stake_covered(verifier, links, round, j - 1);
            let a_prev = links[j - 2].author;
            assert(a_prev < a);
            self.lemma_round_stake_monotone(verifier, round, a_prev + 1, a as int);
        }
    }

    /// Complete rounds below occupied rounds: whenever some node of round
    /// `r >= 1` is in a well-formed store, round `r - 1` can form strong
    /// links. (Its certified strong links are themselves present.)
    pub proof fn lemma_complete_round_below(self, verifier: Verifier, round: u64, author: u64)
        requires
            self.wf(verifier),
            self.has_node_at(round, author),
            round >= 1,
        ensures
            self.strong_links_available(verifier, (round - 1) as u64),
    {
        let prev = (round - 1) as u64;
        if prev != 0 {
            let i = self.index_of(round, author);
            assert(0 <= i < self.nodes@.len() && self.nodes@[i].node.round == round
                && self.nodes@[i].node.author == author);
            let links = self.nodes@[i].node.strong_links@;
            assert(links_well_formed(self.nodes@[i].node@, verifier));
            assert(verifier.is_quorum(links_stake(verifier, links, links.len() as int)));
            // A quorum is never empty: its stake strictly exceeds a
            // non-negative bound.
            lemma_stake_sum_monotone(verifier.stakes@, 0, 0);
            assert(links.len() >= 1) by {
                if links.len() == 0 {
                    assert(links_stake(verifier, links, 0) == 0);
                }
            }
            assert forall|k: int| 0 <= k < links.len() implies self.has_node_at(
                prev,
                (#[trigger] links[k]).author,
            ) by {
                assert(self.contains_meta(links[k]));
                assert(links[k].round == prev);
            }
            let last = links.len() as int;
            self.lemma_links_stake_covered(verifier, links, prev, last);
            self.lemma_round_stake_monotone(
                verifier,
                prev,
                links[last - 1].author + 1,
                verifier.spec_len() as int,
            );
        }
    }

    /// Strong links for a round: `Some` exactly when the round can form
    /// them, and then the selection is the full ascending-author listing of
    /// the round — identical DAG contents give identical selections.
    pub fn get_strong_links_for_round(&self, round: u64, verifier: &Verifier) -> (res: Option<
        Vec<NodeMetadata>,
    >)
        requires
            self.keys_distinct(),
            verifier.wf(),
        ensures
            match res {
                Some(v) => {
                    &&& self.strong_links_available(*verifier, round)
                    &&& v@ == self.links_at(round, verifier.spec_len() as int)
                },
                None => !self.strong_links_available(*verifier, round),
            },
    {
        let n = verifier.len();
        let mut links: Vec<NodeMetadata> = Vec::new();
        let mut stake: u64 = 0;
        let mut a: u64 = 0;
        while a < n
            invariant
                0 <= a <= n,
                n == verifier.spec_len(),
                verifier.wf(),
                self.keys_distinct(),
                links@ == self.links_at(round, a as int),
                stake == self.round_stake(*verifier, round, a as int),
            decreases n - a,
        {
            proof {
                self.lemma_round_stake_bounds(*verifier, round, a + 1);
                lemma_stake_sum_monotone(verifier.stakes@, a + 1, verifier.stakes@.len() as int);
            }
            match self.get(round, a) {
                Some(nd) => {
                    links.push(nd.metadata());
                    stake = stake + verifier.stake_of(a);
                },
                None => {
                },
            }
            a = a + 1;
        }
        if round == 0 || verifier.quorum_check(stake) {
            Some(links)
        } else {
            None
        }
    }
}

/// Authors referenced by a node's strong links.
pub open spec fn link_targets(n: NodeView) -> Set<u64> {
    Set::new(
        |a: u64|
            exists|k: int|
                0 <= k < n.strong_links.len() && (#[trigger] n.strong_links[k]).author == a,
    )
}

/// Authors of a metadata listing.
pub open spec fn root_authors(roots: Seq<NodeMetadata>) -> Set<u64> {
    Set::new(|a: u64| exists|i: int| 0 <= i < roots.len() && (#[trigger] roots[i]).author == a)
}

impl Dag {
    /// Author `a2` of `round` puts `a` into the next (previous-round)
    /// frontier: `a2` is in the current frontier, has a node, and that node
    /// links to `a`.
    pub open spec fn frontier_contrib(self, f: Set<u64>, round: u64, a2: u64, a: u64) -> bool {
        f.contains(a2) && self.has_node_at(round, a2) && link_targets(
            self.node_at(round, a2).node@,
        ).contains(a)
    }

    /// Next frontier restricted to contributors below `bound`.
    pub open spec fn next_frontier_upto(self, f: Set<u64>, round: u64, bound: int, n: u64) -> Set<
        u64,
    > {
        Set::new(
            |a: u64|
                a < n && exists|a2: u64|
                    a2 < bound && #[trigger] self.frontier_contrib(f, round, a2, a),
        )
    }

    /// Authors referenced at round `round - 1` by the frontier `f` of `round`.
    pub open spec fn next_frontier(self, f: Set<u64>, round: u64, n: u64) -> Set<u64> {
        self.next_frontier_upto(f, round, n as int, n)
    }

    /// The BFS frontier at round `r`, walking backward from `roots` (all of
    /// round `root_round`).
    pub open spec fn frontier(self, roots: Seq<NodeMetadata>, root_round: u64, r: u64, n: u64) -> Set<
        u64,
    >
        decreases root_round - r,
    {
        if r >= root_round {
            root_authors(roots)
        } else {
            self.next_frontier(self.frontier(roots, root_round, (r + 1) as u64, n), (r + 1) as u64, n)
        }
    }

    /// Metadata of the present frontier members of one round, ascending by
    /// author below `a_end`.
    pub open spec fn layer_seq(self, f: Set<u64>, round: u64, a_end: int) -> Seq<NodeMetadata>
        decreases a_end,
    {
        if a_end <= 0 {
            Seq::empty()
        } else {
            let rest = self.layer_seq(f, round, a_end - 1);
            let a = (a_end - 1) as u64;
            if f.contains(a) && self.has_node_at(round, a) {
                rest.push(self.meta_at(round, a))
            } else {
                rest
            }
        }
    }

    /// Everything reachable from `roots` down to round `r` inclusive, layer
    /// by layer: rounds descending, authors ascending within a round, each
    /// node at most once.
    pub open spec fn reach_seq_down(
        self,
        roots: Seq<NodeMetadata>,
        root_round: u64,
        r: u64,
        n: u64,
    ) -> Seq<NodeMetadata>
        decreases root_round - r,
    {
        let layer = self.layer_seq(self.frontier(roots, root_round, r, n), r, n as int);
        if r >= root_round {
            layer
        } else {
            self.reach_seq_down(roots, root_round, (r + 1) as u64, n) + layer
        }
    }

    /// Every layer element is a present node of that layer's round.
    pub proof fn lemma_layer_seq_present(self, f: Set<u64>, round: u64, a_end: int)
        requires
            self.keys_distinct(),
            0 <= a_end <= u64::MAX,
        ensures
            forall|j: int|
                0 <= j < self.layer_seq(f, round, a_end).len() ==> {
                    let m = #[trigger] self.layer_seq(f, round, a_end)[j];
                    &&& m.round == round
                    &&& self.has_node_at(round, m.author)
                },
        decreases a_end,
    {
        if a_end > 0 {
            self.lemma_layer_seq_present(f, round, a_end - 1);
            let a = (a_end - 1) as u64;
            let rest = self.layer_seq(f, round, a_end - 1);
            let s = self.layer_seq(f, round, a_end);
            if f.contains(a) && self.has_node_at(round, a) {
                let i = self.index_of(round, a);
                assert(0 <= i < self.nodes@.len() && self.nodes@[i].node.round == round
                    && self.nodes@[i].node.author == a);
                assert(s == rest.push(self.meta_at(round, a)));
                assert(s[s.len() - 1] == self.meta_at(round, a));
            } else {
                assert(s == rest);
            }
        }
    }

    /// Every reachable-listing element is a present node of a round between
    /// the lower bound and the root round.
    pub proof fn lemma_reach_seq_present(
        self,
        roots: Seq<NodeMetadata>,
        root_round: u64,
        r: u64,
        n: u64,
    )
        requires
            self.keys_distinct(),
            r <= root_round,
        ensures
            forall|j: int|
                0 <= j < self.reach_seq_down(roots, root_round, r, n).len() ==> {
                    let m = #[trigger] self.reach_seq_down(roots, root_round, r, n)[j];
                    &&& r <= m.round <= root_round
                    &&& self.has_node_at(m.round, m.author)
                },
        decreases root_round - r,
    {
        self.lemma_layer_seq_present(self.frontier(roots, root_round, r, n), r, n as int);
        let s2 = self.layer_seq(self.frontier(roots, root_round, r, n), r, n as int);
        let s = self.reach_seq_down(roots, root_round, r, n);
        if r < root_round {
            self.lemma_reach_seq_present(roots, root_round, (r + 1) as u64, n);
            let s1 = self.reach_seq_down(roots, root_round, (r + 1) as u64, n);
            assert(s == s1 + s2);
            assert forall|j: int| 0 <= j < s.len() implies {
                let m = #[trigger] s[j];
                &&& r <= m.round <= root_round
                &&& self.has_node_at(m.round, m.author)
            } by {
                if j < s1.len() {
                    assert(s[j] == s1[j]);
                } else {
                    assert(s[j] == s2[j - s1.len()]);
                }
            }
        } else {
            assert(s == s2);
        }
    }

    /// Walk backward over strong links from `roots` (all of round
    /// `root_round`) down to `lower_bound` inclusive; visit order is round
    /// descending, author ascending, each node at most once.
    pub fn reachable(
        &self,
        roots: &Vec<NodeMetadata>,
        root_round: u64,
        lower_bound: u64,
        verifier: &Verifier,
    ) -> (res: Vec<NodeMetadata>)
        requires
            self.wf(*verifier),
            verifier.wf(),
            forall|i: int|
                0 <= i < roots@.len() ==> (#[trigger] roots@[i]).author < verifier.spec_len(),
        ensures
            lower_bound <= root_round ==> res@ == self.reach_seq_down(
                roots@,
                root_round,
                lower_bound,
                verifier.spec_len(),
            ),
            lower_bound > root_round ==> res@.len() == 0,
    {
        let ghost n_spec = verifier.spec_len();
        let mut acc: Vec<NodeMetadata> = Vec::new();
        if lower_bound > root_round {
            return acc;
        }
        let n: usize = verifier.stakes.len();
        let mut fr: Vec<bool> = falses(n);
        mark_links(&mut fr, roots);
        proof {
            assert forall|x: int| 0 <= x < n implies fr@[x] == self.frontier(
                roots@,
                root_round,
                root_round,
                n_spec,
            ).contains(x as u64) by {
                assert(self.frontier(roots@, root_round, root_round, n_spec) == root_authors(
                    roots@,
                ));
            }
        }
        let mut r: u64 = root_round;
        loop
            invariant_except_break
                lower_bound <= r <= root_round,
                n_spec == verifier.spec_len(),
                n == verifier.stakes@.len(),
                self.wf(*verifier),
                verifier.wf(),
                fr@.len() == n,
                forall|x: int|
                    0 <= x < n ==> fr@[x] == self.frontier(roots@, root_round, r, n_spec).contains(
                        x as u64,
                    ),
                if r == root_round {
                    acc@.len() == 0
                } else {
                    acc@ == self.reach_seq_down(roots@, root_round, (r + 1) as u64, n_spec)
                },
            ensures
                acc@ == self.reach_seq_down(roots@, root_round, lower_bound, n_spec),
            decreases r - lower_bound,
        {
            let ghost f = self.frontier(roots@, root_round, r, n_spec);
            let ghost base = acc@;
            let mut next: Vec<bool> = falses(n);
            let mut a: usize = 0;
            while a < n
                invariant
                    0 <= a <= n,
                    n_spec == verifier.spec_len(),
                    n == verifier.stakes@.len(),
                    self.wf(*verifier),
                    verifier.wf(),
                    fr@.len() == n,
                    next@.len() == n,
                    forall|x: int| 0 <= x < n ==> fr@[x] == f.contains(x as u64),
                    acc@ == base + self.layer_seq(f, r, a as int),
                    forall|x: int|
                        0 <= x < n ==> next@[x] == self.next_frontier_upto(
                            f,
                            r,
                            a as int,
                            n_spec,
                        ).contains(x as u64),
                decreases n - a,
            {
                let ghost pre_layer = self.layer_seq(f, r, a as int);
                let ghost pre_next = next@;
                let mut touched = false;
                if fr[a] {
                    match self.get(r, a as u64) {
                        Some(nd) => {
                            proof {
                                let i = self.index_of(r, a as u64);
                                assert(0 <= i < self.nodes@.len());
                                assert(links_well_formed(self.nodes@[i].node@, *verifier));
                            }
                            acc.push(nd.metadata());
                            mark_links(&mut next, &nd.node.strong_links);
                            touched = true;
                            proof {
                                assert(*nd == self.node_at(r, a as u64));
                                assert(acc@ == base + pre_layer.push(self.meta_at(r, a as u64)));
                                assert(self.layer_seq(f, r, a + 1) == pre_layer.push(
                                    self.meta_at(r, a as u64),
                                ));
                                assert(acc@ == base + self.layer_seq(f, r, a + 1));
                            }
                        },
                        None => {
                        },
                    }
                }
                proof {
                    if !touched {
                        assert(next@ == pre_next);
                        assert(!(f.contains(a as u64) && self.has_node_at(r, a as u64)));
                        assert(self.layer_seq(f, r, a + 1) == pre_layer);
                        assert(acc@ == base + self.layer_seq(f, r, a + 1));
                    }
                    assert forall|x: int| 0 <= x < n implies next@[x] == self.next_frontier_upto(
                        f,
                        r,
                        a + 1,
                        n_spec,
                    ).contains(x as u64) by {
                        let xa = x as u64;
                        if touched {
                            let nd = self.node_at(r, a as u64);
                            assert(next@[x] == (pre_next[x] || link_targets(nd.node@).contains(xa)))
                                by {
                                assert(next@[x] == (pre_next[x] || exists|k: int|
                                    0 <= k < nd.node.strong_links@.len() && (
                                    #[trigger] nd.node.strong_links@[k]).author == xa));
                            }
                            if next@[x] {
                                if pre_next[x] {
                                    let a2 = choose|a2: u64|
                                        a2 < a && #[trigger] self.frontier_contrib(f, r, a2, xa);
                                    assert(self.frontier_contrib(f, r, a2, xa));
                                } else {
                                    assert(self.frontier_contrib(f, r, a as u64, xa));
                                }
                            }
                            if self.next_frontier_upto(f, r, a + 1, n_spec).contains(xa) {
                                let a2 = choose|a2: u64|
                                    a2 < a + 1 && #[trigger] self.frontier_contrib(f, r, a2, xa);
                                if a2 < a {
                                    assert(self.next_frontier_upto(f, r, a as int, n_spec).contains(
                                        xa,
                                    ));
                                } else {
                                    assert(a2 == a);
                                    assert(link_targets(nd.node@).contains(xa));
                                }
                            }
                        } else {
                            if self.next_frontier_upto(f, r, a + 1, n_spec).contains(xa) {
                                let a2 = choose|a2: u64|
                                    a2 < a + 1 && #[trigger] self.frontier_contrib(f, r, a2, xa);
                                assert(a2 < a) by {
                                    if a2 == a {
                                        assert(f.contains(a as u64) && self.has_node_at(
                                            r,
                                            a as u64,
                                        ));
                                    }
                                }
                                assert(self.next_frontier_upto(f, r, a as int, n_spec).contains(xa));
                            }
                            if self.next_frontier_upto(f, r, a as int, n_spec).contains(xa) {
                                let a2 = choose|a2: u64|
                                    a2 < a && #[trigger] self.frontier_contrib(f, r, a2, xa);
                                assert(self.next_frontier_upto(f, r, a + 1, n_spec).contains(xa));
                            }
                        }
                    }
                }
                a = a + 1;
            }
            proof {
                assert(acc@ == base + self.layer_seq(f, r, n as int));
                if r == root_round {
                    assert(acc@ =~= self.reach_seq_down(roots@, root_round, r, n_spec));
                } else {
                    assert(acc@ == self.reach_seq_down(roots@, root_round, (r + 1) as u64, n_spec)
                        + self.layer_seq(f, r, n as int));
                    assert(acc@ == self.reach_seq_down(roots@, root_round, r, n_spec));
                }
            }
            if r == lower_bound {
                break;
            }
            proof {
                assert forall|x: int| 0 <= x < n implies next@[x] == self.frontier(
                    roots@,
                    root_round,
                    (r - 1) as u64,
                    n_spec,
                ).contains(x as u64) by {
                    assert(self.frontier(roots@, root_round, (r - 1) as u64, n_spec)
                        == self.next_frontier(f, r, n_spec));
                }
            }
            fr = next;
            r = r - 1;
        }
        acc
    }

    /// Payloads of the listed nodes, in listing order.
    pub fn payloads_for(&self, metas: &Vec<NodeMetadata>) -> (res: Vec<Vec<u64>>)
        requires
            self.keys_distinct(),
            forall|j: int|
                0 <= j < metas@.len() ==> self.has_node_at(
                    (#[trigger] metas@[j]).round,
                    metas@[j].author,
                ),
        ensures
            res@.len() == metas@.len(),
            forall|j: int|
                0 <= j < metas@.len() ==> (#[trigger] res@[j])@ == self.node_at(
                    metas@[j].round,
                    metas@[j].author,
                ).node.payload@,
    {
        let mut res: Vec<Vec<u64>> = Vec::new();
        let mut j: usize = 0;
        while j < metas.len()
            invariant
                0 <= j <= metas@.len(),
                self.keys_distinct(),
                forall|k: int|
                    0 <= k < metas@.len() ==> self.has_node_at(
                        (#[trigger] metas@[k]).round,
                        metas@[k].author,
                    ),
                res@.len() == j,
                forall|k: int|
                    0 <= k < j ==> (#[trigger] res@[k])@ == self.node_at(
                        metas@[k].round,
                        metas@[k].author,
                    ).node.payload@,
            decreases metas@.len() - j,
        {
            let m = metas[j];
            match self.get(m.round, m.author) {
                Some(nd) => {
                    res.push(crate::types::copy_words(&nd.node.payload));
                },
                None => {
                    proof {
                        assert(false);
                    }
                },
            }
            j = j + 1;
        }
        res
    }
}

/// A vector of `n` `false` flags.
fn falses(n: usize) -> (r: Vec<bool>)
    ensures
        r@.len() == n,
        forall|i: int| 0 <= i < n ==> !r@[i],
{
    let mut r: Vec<bool> = Vec::new();
    let mut i: usize = 0;
    while i < n
        invariant
            0 <= i <= n,
            r@.len() == i,
            forall|j: int| 0 <= j < i ==> !r@[j],
        decreases n - i,
    {
        r.push(false);
        i = i + 1;
    }
    r
}

/// Set the flag of every author referenced by `links`.
fn mark_links(flags: &mut Vec<bool>, links: &Vec<NodeMetadata>)
    requires
        forall|k: int| 0 <= k < links@.len() ==> (#[trigger] links@[k]).author < old(flags)@.len(),
    ensures
        final(flags)@.len() == old(flags)@.len(),
        forall|x: int|
            0 <= x < old(flags)@.len() ==> final(flags)@[x] == (old(flags)@[x] || exists|k: int|
                0 <= k < links@.len() && (#[trigger] links@[k]).author == x),
{
    let total: usize = flags.len();
    proof {
        assert(old(flags)@.len() == total);
    }
    let mut k: usize = 0;
    while k < links.len()
        invariant
            0 <= k <= links@.len(),
            flags@.len() == old(flags)@.len(),
            forall|k2: int|
                0 <= k2 < links@.len() ==> (#[trigger] links@[k2]).author < old(flags)@.len(),
            forall|x: int|
                0 <= x < old(flags)@.len() ==> flags@[x] == (old(flags)@[x] || exists|k2: int|
                    0 <= k2 < k && (#[trigger] links@[k2]).author == x),
            total == old(flags)@.len(),
        decreases links@.len() - k,
    {
        let a = links[k].author as usize;
        proof {
            assert(links@[k as int].author < old(flags)@.len());
            assert(a as int == links@[k as int].author);
        }
        flags.set(a, true);
        proof {
            assert forall|x: int| 0 <= x < old(flags)@.len() implies flags@[x] == (old(flags)@[x]
                || exists|k2: int| 0 <= k2 < k + 1 && (#[trigger] links@[k2]).author == x) by {
                if x == a {
                    assert(links@[k as int].author == x);
                } else {
                    if flags@[x] && !old(flags)@[x] {
                        let k2 = choose|k2: int|
                            0 <= k2 < k && (#[trigger] links@[k2]).author == x;
                        assert(links@[k2].author == x);
                    }
                }
            }
        }
        k = k + 1;
    }
}

impl Dag {
    /// Parent closure, stated for one node: every strong link of any node
    /// present in a well-formed store is itself present, digest included.
    pub proof fn lemma_parent_closure(self, verifier: Verifier, round: u64, author: u64, k: int)
        requires
            self.wf(verifier),
            self.has_node_at(round, author),
            0 <= k < self.node_at(round, author).node.strong_links@.len(),
        ensures
            self.contains_meta(self.node_at(round, author).node.strong_links@[k]),
    {
        let i = self.index_of(round, author);
        assert(0 <= i < self.nodes@.len() && self.nodes@[i].node.round == round
            && self.nodes@[i].node.author == author);
        assert(self.contains_meta(self.nodes@[i].node.strong_links@[k]));
    }

    /// Two stores with the same contents occupy the same keys, with the
    /// same occupants.
    pub proof fn lemma_occupancy_congruent(self, other: Dag, round: u64, author: u64)
        requires
            self.keys_distinct(),
            other.keys_distinct(),
            self.nodes@ == other.nodes@,
        ensures
            self.has_node_at(round, author) == other.has_node_at(round, author),
            self.has_node_at(round, author) ==> self.node_at(round, author) == other.node_at(
                round,
                author,
            ),
    {
        if self.has_node_at(round, author) {
            let i = self.index_of(round, author);
            assert(0 <= i < self.nodes@.len() && self.nodes@[i].node.round == round
                && self.nodes@[i].node.author == author);
            other.lemma_node_at_is(round, author, i);
            self.lemma_node_at_is(round, author, i);
        }
        if other.has_node_at(round, author) {
            let i = other.index_of(round, author);
            assert(0 <= i < other.nodes@.len() && other.nodes@[i].node.round == round
                && other.nodes@[i].node.author == author);
            self.lemma_node_at_is(round, author, i);
        }
    }

    /// Strong-link listings agree between stores with the same contents.
    pub proof fn lemma_links_at_congruent(self, other: Dag, round: u64, a_end: int)
        requires
            self.keys_distinct(),
            other.keys_distinct(),
            self.nodes@ == other.nodes@,
            0 <= a_end <= u64::MAX,
        ensures
            self.links_at(round, a_end) == other.links_at(round, a_end),
        decreases a_end,
    {
        if a_end > 0 {
            self.lemma_links_at_congruent(other, round, a_end - 1);
            let a = (a_end - 1) as u64;
            self.lemma_occupancy_congruent(other, round, a);
        }
    }

    /// Round stakes agree between stores with the same contents.
    pub proof fn lemma_round_stake_congruent(
        self,
        other: Dag,
        verifier: Verifier,
        round: u64,
        a_end: int,
    )
        requires
            self.keys_distinct(),
            other.keys_distinct(),
            self.nodes@ == other.nodes@,
            0 <= a_end <= u64::MAX,
        ensures
            self.round_stake(verifier, round, a_end) == other.round_stake(verifier, round, a_end),
        decreases a_end,
    {
        if a_end > 0 {
            self.lemma_round_stake_congruent(other, verifier, round, a_end - 1);
            let a = (a_end - 1) as u64;
            self.lemma_occupancy_congruent(other, round, a);
        }
    }

    /// Determinism of strong-link selection: two replicas whose stores hold
    /// the same nodes select the same strong-link set for any round, and
    /// agree on whether one can be formed at all.
    pub proof fn lemma_strong_links_deterministic(
        self,
        other: Dag,
        verifier: Verifier,
        round: u64,
    )
        requires
            self.keys_distinct(),
            other.keys_distinct(),
            self.nodes@ == other.nodes@,
        ensures
            self.links_at(round, verifier.spec_len() as int) == other.links_at(
                round,
                verifier.spec_len() as int,
            ),
            self.strong_links_available(verifier, round) == other.strong_links_available(
                verifier,
                round,
            ),
    {
        self.lemma_links_at_congruent(other, round, verifier.spec_len() as int);
        self.lemma_round_stake_congruent(other, verifier, round, verifier.spec_len() as int);
    }
}

/// Link stake over a prefix ignores elements pushed past the prefix.
pub proof fn lemma_links_stake_shorter(
    verifier: Verifier,
    s: Seq<NodeMetadata>,
    m: NodeMetadata,
    k: int,
)
    requires
        0 <= k <= s.len(),
    ensures
        links_stake(verifier, s.push(m), k) == links_stake(verifier, s, k),
    decreases k,
{
    if k > 0 {
        lemma_links_stake_shorter(verifier, s, m, k - 1);
        assert(s.push(m)[k - 1] == s[k - 1]);
    }
}

} // verus!
