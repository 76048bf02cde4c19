//! The DAG driver: the per-validator state machine that advances rounds,
//! ingests certified nodes from peers, and schedules every outward action.
//!
//! The driver owns the round cursor, the DAG store, the pending-proposal
//! slot and the reliable-broadcast handle. It performs no I/O itself:
//! every effect (journal write, broadcast, abort, payload pull, fetch
//! request, order-rule notification) is emitted as an [`Action`], in the
//! order in which the embedding runtime must perform it, and the runtime
//! feeds results back in as calls. Awaited payload pulls are represented by
//! the `pending_round` slot: a round is proposed in two steps, the request
//! (`enter_new_round`) and the completion (`on_payload_ready`).

use vstd::prelude::*;

use crate::dag_store::{links_well_formed, Dag};
use crate::types::{
    copy_metas, copy_words, metadata_of, CertifiedAck, CertifiedNode, LedgerInfo, Node,
    NodeMetadata, NodeView,
};
use crate::validator_verifier::Verifier;

verus! {

/// Typed failures of the driver and of the DAG store.
#[derive(Clone, Copy, PartialEq, Eq, Structural, Debug)]
pub enum DagDriverError {
    /// A strong-link parent of an ingested node is absent; a fetch was
    /// requested and the node was deferred.
    MissingParents,
    /// The key `(round, author)` is already occupied.
    DuplicateNode,
    /// The node's epoch, or its author, does not belong to the current epoch.
    InvalidEpoch,
    /// The store rejected an insert because a strong link is absent.
    UnknownParents,
}

/// Payload pulls exclude transactions that are already carried by nodes
/// reachable from the strong links.
pub enum PayloadFilter {
    /// Nothing to exclude.
    Empty,
    /// Exclude the transactions of these payloads.
    Excluding(Vec<Vec<u64>>),
}

/// Mathematical model of a [`PayloadFilter`].
#[verifier::ext_equal]
pub enum PayloadFilterView {
    Empty,
    Excluding(Seq<Seq<u64>>),
}

impl View for PayloadFilter {
    type V = PayloadFilterView;

    open spec fn view(&self) -> PayloadFilterView {
        match self {
            PayloadFilter::Empty => PayloadFilterView::Empty,
            PayloadFilter::Excluding(ps) => PayloadFilterView::Excluding(
                ps@.map_values(|p: Vec<u64>| p@),
            ),
        }
    }
}

/// Identifies one spawned reliable-broadcast chain (both phases of one
/// round's broadcast), so it can be aborted when superseded.
#[derive(Clone, Copy, PartialEq, Eq, Structural, Debug)]
pub struct RbHandle {
    pub round: u64,
}

/// One outward effect the embedding runtime must perform. Order matters:
/// effects are appended in the order they must happen.
pub enum Action {
    /// Pull a payload for `round` under the given budget, excluding what the
    /// filter lists; answer with `on_payload_ready`.
    PullPayload { round: u64, max_wait_us: u64, max_txns: u64, max_bytes: u64, filter: PayloadFilter },
    /// Durably overwrite the pending-node slot; must complete before any
    /// later action is started.
    SavePendingNode { node: Node },
    /// Spawn the two-phase reliable broadcast of this node as one abortable
    /// task, carrying the latest ledger info into the certified message.
    BroadcastNode { node: Node, ledger_info: LedgerInfo },
    /// Abort a previously spawned broadcast chain.
    AbortBroadcast { handle: RbHandle },
    /// Ask the fetch subsystem for the missing parents of this node
    /// (fire-and-forget).
    RequestFetch { node: CertifiedNode },
    /// Let the payload manager prefetch the data of an ingested node.
    PrefetchPayload { payload: Vec<u64>, timestamp_us: u64 },
    /// Push newly added node metadata into the order rule.
    NotifyOrderRule { metadata: NodeMetadata },
}

/// Mathematical model of an [`Action`].
#[verifier::ext_equal]
pub enum ActionView {
    PullPayload { round: u64, max_wait_us: u64, max_txns: u64, max_bytes: u64, filter: PayloadFilterView },
    SavePendingNode { node: NodeView },
    BroadcastNode { node: NodeView, ledger_info: LedgerInfo },
    AbortBroadcast { handle: RbHandle },
    RequestFetch { node: NodeView },
    PrefetchPayload { payload: Seq<u64>, timestamp_us: u64 },
    NotifyOrderRule { metadata: NodeMetadata },
}

impl View for Action {
    type V = ActionView;

    open spec fn view(&self) -> ActionView {
        match self {
            Action::PullPayload { round, max_wait_us, max_txns, max_bytes, filter } => (
            ActionView::PullPayload {
                round: *round,
                max_wait_us: *max_wait_us,
                max_txns: *max_txns,
                max_bytes: *max_bytes,
                filter: filter@,
            }),
            Action::SavePendingNode { node } => (ActionView::SavePendingNode { node: node@ }),
            Action::BroadcastNode { node, ledger_info } => (ActionView::BroadcastNode {
                node: node@,
                ledger_info: *ledger_info,
            }),
            Action::AbortBroadcast { handle } => (ActionView::AbortBroadcast { handle: *handle }),
            Action::RequestFetch { node } => (ActionView::RequestFetch { node: node.node@ }),
            Action::PrefetchPayload { payload, timestamp_us } => (ActionView::PrefetchPayload {
                payload: payload@,
                timestamp_us: *timestamp_us,
            }),
            Action::NotifyOrderRule { metadata } => (ActionView::NotifyOrderRule {
                metadata: *metadata,
            }),
        }
    }
}

/// The views of an action listing.
pub open spec fn acts(s: Seq<Action>) -> Seq<ActionView> {
    s.map_values(|a: Action| a@)
}

/// Appending one action appends its view.
pub proof fn lemma_acts_push(s: Seq<Action>, a: Action)
    ensures
        acts(s.push(a)) == acts(s).push(a@),
{
    assert(acts(s.push(a)) =~= acts(s).push(a@));
}

/// Payload-pull budget: wait at most this long.
pub const PULL_MAX_WAIT_US: u64 = 1_000_000;

/// Payload-pull budget: at most this many transactions.
pub const PULL_MAX_TXNS: u64 = 1000;

/// Payload-pull budget: at most this many bytes.
pub const PULL_MAX_BYTES: u64 = 10_485_760;

/// A proposal whose payload pull is in flight: the round and the strong
/// links selected for it.
pub struct PendingRound {
    pub round: u64,
    pub strong_links: Vec<NodeMetadata>,
}

/// The round this replica is already committed to: the in-flight proposal's
/// round when one exists, else the round cursor. (A pending proposal is
/// always ahead of the cursor.)
pub open spec fn effective_round(d: DagDriver) -> u64 {
    match d.pending_round {
        Some(p) => p.round,
        None => d.current_round,
    }
}

/// The round the replica settles on from DAG contents alone: the highest
/// round if it can form strong links, otherwise the round below it.
pub open spec fn chosen_round(dag: Dag, verifier: Verifier) -> u64 {
    let h = dag.spec_highest_round();
    if dag.strong_links_available(verifier, h) {
        h
    } else {
        (h - 1) as u64
    }
}

/// The payload filter a proposal for `new_round` must carry: empty when the
/// strong links are empty, otherwise the payloads of every node reachable
/// from the strong links down to the committed anchor round minus the DAG
/// window (saturating at 0).
pub open spec fn expected_filter(
    dag: Dag,
    verifier: Verifier,
    new_round: u64,
    anchor_round: u64,
    window: u64,
) -> PayloadFilterView {
    let prev = (new_round - 1) as u64;
    let links = dag.links_at(prev, verifier.spec_len() as int);
    if links.len() == 0 {
        PayloadFilterView::Empty
    } else {
        let lower = if anchor_round > window {
            (anchor_round - window) as u64
        } else {
            0
        };
        let metas = if lower <= prev {
            dag.reach_seq_down(links, prev, lower, verifier.spec_len())
        } else {
            Seq::empty()
        };
        PayloadFilterView::Excluding(
            metas.map(|j: int, m: NodeMetadata| dag.node_at(m.round, m.author).node.payload@),
        )
    }
}

/// The pull action emitted when a proposal for `new_round` is prepared.
pub open spec fn pull_action(
    dag: Dag,
    verifier: Verifier,
    new_round: u64,
    anchor_round: u64,
    window: u64,
) -> ActionView {
    ActionView::PullPayload {
        round: new_round,
        max_wait_us: PULL_MAX_WAIT_US,
        max_txns: PULL_MAX_TXNS,
        max_bytes: PULL_MAX_BYTES,
        filter: expected_filter(dag, verifier, new_round, anchor_round, window),
    }
}

/// The per-validator driver state.
pub struct DagDriver {
    /// This replica's author id.
    pub author: u64,
    /// The epoch being driven.
    pub epoch: u64,
    /// The epoch's validator set.
    pub verifier: Verifier,
    /// The DAG store.
    pub dag: Dag,
    /// The round this replica is proposing (or has just proposed).
    pub current_round: u64,
    /// Handle of the one in-flight reliable-broadcast chain, if any.
    pub rb_abort_handle: Option<RbHandle>,
    /// The proposal whose payload pull is in flight, if any.
    pub pending_round: Option<PendingRound>,
    /// Rounds kept live below the committed anchor for payload filtering.
    pub dag_window: u64,
}

/// One driver step: the round cursor never decreases and the DAG only
/// grows.
pub open spec fn evolves(pre: DagDriver, post: DagDriver) -> bool {
    &&& pre.current_round <= post.current_round
    &&& pre.dag.nodes@.is_prefix_of(post.dag.nodes@)
}

/// Round monotonicity over whole traces: along any chain of driver steps
/// the round cursor is non-decreasing.
pub proof fn lemma_round_monotonic(trace: Seq<DagDriver>, i: int, j: int)
    requires
        forall|k: int| 0 <= k < trace.len() - 1 ==> #[trigger] evolves(trace[k], trace[k + 1]),
        0 <= i <= j < trace.len(),
    ensures
        trace[i].current_round <= trace[j].current_round,
    decreases j - i,
{
    if i < j {
        lemma_round_monotonic(trace, i, j - 1);
        let k = j - 1;
        assert(evolves(trace[k], trace[k + 1]));
    }
}

/// Journal-before-broadcast: when a proposal round completes, the journal
/// write of the node stands strictly before the broadcast of that same node
/// in the emitted actions.
pub proof fn lemma_journal_before_broadcast(
    pre: Seq<ActionView>,
    post: Seq<ActionView>,
    nv: NodeView,
    ledger_info: LedgerInfo,
)
    requires
        post == pre.push((ActionView::SavePendingNode { node: nv })).push(
            (ActionView::BroadcastNode { node: nv, ledger_info }),
        ) || exists|h: RbHandle|
            post == #[trigger] pre.push((ActionView::SavePendingNode { node: nv })).push(
                (ActionView::BroadcastNode { node: nv, ledger_info }),
            ).push((ActionView::AbortBroadcast { handle: h })),
    ensures
        exists|i: int, j: int|
            #![trigger post[i], post[j]]
            0 <= i < j < post.len() && post[i] == (ActionView::SavePendingNode { node: nv })
                && post[j] == (ActionView::BroadcastNode { node: nv, ledger_info }),
{
    let i = pre.len() as int;
    assert(post[i] == (ActionView::SavePendingNode { node: nv }));
    assert(post[i + 1] == (ActionView::BroadcastNode { node: nv, ledger_info }));
}

/// Every strong-link parent of `node` is present in the driver's DAG.
pub open spec fn parents_present(d: DagDriver, node: CertifiedNode) -> bool {
    forall|k: int|
        0 <= k < node.node.strong_links@.len() ==> d.dag.contains_meta(
            #[trigger] node.node.strong_links@[k],
        )
}

/// Exactly when each ingest failure occurs and what it emits. Parents are
/// checked first, so on any other failure every strong link is present; the
/// fetch request is emitted exactly on missing parents, the prefetch exactly
/// on the store failures, and nothing else — in particular no order-rule
/// notification. A fresh, valid node with its parents present matches no
/// arm, so ingest is then owed success.
pub open spec fn ingest_err(
    pre: DagDriver,
    node: CertifiedNode,
    e: DagDriverError,
    pre_out: Seq<Action>,
    post_out: Seq<Action>,
) -> bool {
    match e {
        DagDriverError::MissingParents => {
            &&& !parents_present(pre, node)
            &&& acts(post_out) == acts(pre_out).push(
                (ActionView::RequestFetch { node: node.node@ }),
            )
        },
        DagDriverError::DuplicateNode => {
            &&& parents_present(pre, node)
            &&& node.node.epoch == pre.epoch
            &&& node.node.author < pre.verifier.spec_len()
            &&& pre.dag.has_node_at(node.node.round, node.node.author)
            &&& acts(post_out) == acts(pre_out).push(
                (ActionView::PrefetchPayload {
                    payload: node.node.payload@,
                    timestamp_us: node.node.timestamp_us,
                }),
            )
        },
        DagDriverError::InvalidEpoch => {
            &&& parents_present(pre, node)
            &&& (node.node.epoch != pre.epoch || node.node.author >= pre.verifier.spec_len())
            &&& acts(post_out) == acts(pre_out).push(
                (ActionView::PrefetchPayload {
                    payload: node.node.payload@,
                    timestamp_us: node.node.timestamp_us,
                }),
            )
        },
        DagDriverError::UnknownParents => false,
    }
}

/// The fields `add_node` leaves alone, and how the DAG and the proposal
/// slot change on a successful ingest. The chosen round `q` can always form
/// strong links, so advancement to `q + 1` only ever happens at a quorum
/// boundary.
pub open spec fn ingest_ok(pre: DagDriver, post: DagDriver, node: CertifiedNode) -> bool {
    let q = chosen_round(post.dag, pre.verifier);
    &&& post.dag.nodes@ == pre.dag.nodes@.push(node)
    &&& post.dag.strong_links_available(pre.verifier, q)
    &&& post.dag.contains_meta(metadata_of(node.node@))
    &&& node.node.epoch == pre.epoch
    &&& node.node.author < pre.verifier.spec_len()
    &&& !pre.dag.has_node_at(node.node.round, node.node.author)
    &&& forall|k: int|
        0 <= k < node.node.strong_links@.len() ==> pre.dag.contains_meta(
            #[trigger] node.node.strong_links@[k],
        )
    &&& post.author == pre.author
    &&& post.epoch == pre.epoch
    &&& post.verifier == pre.verifier
    &&& post.current_round == pre.current_round
    &&& post.rb_abort_handle == pre.rb_abort_handle
    &&& post.dag_window == pre.dag_window
    &&& post.dag.epoch == pre.dag.epoch
    &&& if effective_round(pre) <= q {
        match post.pending_round {
            Some(p) => p.round == q + 1 && p.strong_links@ == post.dag.links_at(
                q,
                pre.verifier.spec_len() as int,
            ),
            None => false,
        }
    } else {
        post.pending_round == pre.pending_round
    }
}

/// The actions a successful ingest emits: the prefetch, then (when the
/// replica advances) the payload pull for the next round.
pub open spec fn ingest_actions(
    pre: DagDriver,
    post: DagDriver,
    node: CertifiedNode,
    anchor_round: u64,
) -> Seq<ActionView> {
    let q = chosen_round(post.dag, pre.verifier);
    let base = seq![
        (ActionView::PrefetchPayload {
            payload: node.node.payload@,
            timestamp_us: node.node.timestamp_us,
        }),
    ];
    if effective_round(pre) <= q {
        base.push(pull_action(post.dag, pre.verifier, (q + 1) as u64, anchor_round, pre.dag_window))
    } else {
        base
    }
}

impl DagDriver {
    /// Driver invariant: the verifier and DAG are well formed, they agree on
    /// the epoch, the replica is a member, and an in-flight proposal is
    /// always ahead of the round cursor.
    pub open spec fn wf(self) -> bool {
        &&& self.verifier.wf()
        &&& self.dag.wf(self.verifier)
        &&& self.dag.epoch == self.epoch
        &&& self.author < self.verifier.spec_len()
        &&& match self.pending_round {
            Some(p) => self.current_round < p.round,
            None => true,
        }
    }

    /// Build the driver and run startup recovery.
    ///
    /// With `q` the round chosen from the DAG: a journalled pending node for
    /// round `q + 1` is resumed — re-broadcast unchanged, with no new journal
    /// write and no payload pull; otherwise the replica starts proposing
    /// round `q + 1` afresh.
    pub fn new(
        author: u64,
        epoch: u64,
        verifier: Verifier,
        dag: Dag,
        pending_node: Option<Node>,
        anchor_round: u64,
        ledger_info: LedgerInfo,
        dag_window: u64,
        out: &mut Vec<Action>,
    ) -> (r: DagDriver)
        requires
            verifier.wf(),
            dag.wf(verifier),
            dag.epoch == epoch,
            author < verifier.spec_len(),
        ensures
            r.wf(),
            r.author == author,
            r.epoch == epoch,
            r.verifier == verifier,
            r.dag == dag,
            r.dag_window == dag_window,
            ({
                let q = chosen_round(dag, verifier);
                match pending_node {
                    Some(p) => {
                        if p.round == q + 1 {
                            &&& r.current_round == p.round
                            &&& r.pending_round is None
                            &&& r.rb_abort_handle == Some(RbHandle { round: p.round })
                            &&& acts(final(out)@) == acts(old(out)@).push(
                                (ActionView::BroadcastNode { node: p@, ledger_info }),
                            )
                        } else {
                            &&& r.current_round == q
                            &&& r.rb_abort_handle is None
                            &&& fresh_start(r, dag, verifier, q)
                            &&& acts(final(out)@) == acts(old(out)@).push(
                                pull_action(dag, verifier, (q + 1) as u64, anchor_round, dag_window),
                            )
                        }
                    },
                    None => {
                        &&& r.current_round == q
                        &&& r.rb_abort_handle is None
                        &&& fresh_start(r, dag, verifier, q)
                        &&& acts(final(out)@) == acts(old(out)@).push(
                            pull_action(dag, verifier, (q + 1) as u64, anchor_round, dag_window),
                        )
                    },
                }
            }),
    {
        proof {
            lemma_chosen_round_ok(dag, verifier);
        }
        let h = dag.highest_round();
        let q = match dag.get_strong_links_for_round(h, &verifier) {
            Some(_) => h,
            None => h - 1,
        };
        proof {
            assert(q == chosen_round(dag, verifier));
        }
        let mut driver = DagDriver {
            author,
            epoch,
            verifier,
            dag,
            current_round: q,
            rb_abort_handle: None,
            pending_round: None,
            dag_window,
        };
        let resume = match &pending_node {
            Some(p) => p.round == q + 1,
            None => false,
        };
        if resume {
            let p = match pending_node {
                Some(p) => p,
                None => unreached(),
            };
            driver.current_round = p.round;
            driver.broadcast_node(p, ledger_info, out);
        } else {
            driver.enter_new_round(q + 1, anchor_round, out);
        }
        driver
    }

    /// Ingest a certified node from a peer.
    ///
    /// Missing parents raise a fetch request and `MissingParents`; otherwise
    /// the payload is prefetched and the store insert is attempted. On
    /// success the replica advances: whenever the round it is committed to
    /// (its cursor, or an in-flight proposal's round) is at or below the
    /// chosen round `q`, the proposal for `q + 1` is prepared, which
    /// requires round `q` to satisfy the quorum threshold.
    pub fn add_node(
        &mut self,
        node: CertifiedNode,
        anchor_round: u64,
        out: &mut Vec<Action>,
    ) -> (res: Result<(), DagDriverError>)
        requires
            old(self).wf(),
            links_well_formed(node.node@, old(self).verifier),
        ensures
            final(self).wf(),
            evolves(*old(self), *final(self)),
            match res {
                Ok(_) => {
                    &&& ingest_ok(*old(self), *final(self), node)
                    &&& acts(final(out)@) == acts(old(out)@) + ingest_actions(
                        *old(self),
                        *final(self),
                        node,
                        anchor_round,
                    )
                },
                Err(e) => {
                    &&& *final(self) == *old(self)
                    &&& ingest_err(*old(self), node, e, old(out)@, final(out)@)
                },
            },
    {
        if !self.dag.all_exists(&node.node.strong_links) {
            out.push(Action::RequestFetch { node });
            proof {
                lemma_acts_push(old(out)@, (Action::RequestFetch { node }));
            }
            return Err(DagDriverError::MissingParents);
        }
        let payload_copy = copy_words(&node.node.payload);
        let timestamp_us = node.node.timestamp_us;
        let ghost prefetch = (Action::PrefetchPayload { payload: payload_copy, timestamp_us });
        out.push(Action::PrefetchPayload { payload: payload_copy, timestamp_us });
        proof {
            lemma_acts_push(old(out)@, prefetch);
        }
        match self.dag.add_node(node, &self.verifier) {
            Ok(_) => {
            },
            Err(e) => {
                proof {
                    assert(e != DagDriverError::UnknownParents);
                    assert(e != DagDriverError::MissingParents);
                }
                return Err(e);
            },
        }
        proof {
            assert(self.wf());
            lemma_chosen_round_ok(self.dag, self.verifier);
            let i = self.dag.nodes@.len() - 1;
            self.dag.lemma_node_at_is(node.node.round, node.node.author, i);
        }
        let h = self.dag.highest_round();
        let q = match self.dag.get_strong_links_for_round(h, &self.verifier) {
            Some(_) => h,
            None => h - 1,
        };
        proof {
            assert(q == chosen_round(self.dag, self.verifier));
            assert(old(self).dag.nodes@.is_prefix_of(self.dag.nodes@)) by {
                assert(old(self).dag.nodes@ =~= self.dag.nodes@.subrange(
                    0,
                    old(self).dag.nodes@.len() as int,
                ));
            }
        }
        let committed_round = match &self.pending_round {
            Some(p) => p.round,
            None => self.current_round,
        };
        if committed_round <= q {
            self.enter_new_round(q + 1, anchor_round, out);
        }
        Ok(())
    }

    /// Prepare the proposal for `new_round`: select the strong links of the
    /// round below (which must satisfy the quorum threshold past genesis),
    /// build the payload filter over everything reachable from them down to
    /// the anchor window, and request the payload pull. The proposal
    /// completes in `on_payload_ready`.
    pub fn enter_new_round(&mut self, new_round: u64, anchor_round: u64, out: &mut Vec<Action>)
        requires
            old(self).wf(),
            1 <= new_round,
            old(self).current_round < new_round,
            old(self).dag.strong_links_available(old(self).verifier, (new_round - 1) as u64),
        ensures
            final(self).wf(),
            evolves(*old(self), *final(self)),
            final(self).author == old(self).author,
            final(self).epoch == old(self).epoch,
            final(self).verifier == old(self).verifier,
            final(self).dag == old(self).dag,
            final(self).current_round == old(self).current_round,
            final(self).rb_abort_handle == old(self).rb_abort_handle,
            final(self).dag_window == old(self).dag_window,
            match final(self).pending_round {
                Some(p) => p.round == new_round && p.strong_links@ == old(self).dag.links_at(
                    (new_round - 1) as u64,
                    old(self).verifier.spec_len() as int,
                ),
                None => false,
            },
            acts(final(out)@) == acts(old(out)@).push(
                pull_action(
                    old(self).dag,
                    old(self).verifier,
                    new_round,
                    anchor_round,
                    old(self).dag_window,
                ),
            ),
    {
        let prev_round = new_round - 1;
        let links = match self.dag.get_strong_links_for_round(prev_round, &self.verifier) {
            Some(v) => v,
            None => unreached(),
        };
        let filter: PayloadFilter;
        if links.len() == 0 {
            filter = PayloadFilter::Empty;
        } else {
            let lower = if anchor_round > self.dag_window {
                anchor_round - self.dag_window
            } else {
                0
            };
            proof {
                self.dag.lemma_links_at_props(
                    self.verifier,
                    prev_round,
                    self.verifier.spec_len() as int,
                );
                if lower <= prev_round {
                    self.dag.lemma_reach_seq_present(
                        links@,
                        prev_round,
                        lower,
                        self.verifier.spec_len(),
                    );
                }
            }
            let metas = self.dag.reachable(&links, prev_round, lower, &self.verifier);
            let payloads = self.dag.payloads_for(&metas);
            filter = PayloadFilter::Excluding(payloads);
            proof {
                let expected = expected_filter(
                    self.dag,
                    self.verifier,
                    new_round,
                    anchor_round,
                    self.dag_window,
                );
                match expected {
                    PayloadFilterView::Excluding(ps) => {
                        assert(filter@ matches PayloadFilterView::Excluding(got) && got =~= ps);
                    },
                    PayloadFilterView::Empty => {
                        assert(false);
                    },
                }
                assert(filter@ =~= expected);
            }
        }
        let ghost act = (Action::PullPayload {
            round: new_round,
            max_wait_us: PULL_MAX_WAIT_US,
            max_txns: PULL_MAX_TXNS,
            max_bytes: PULL_MAX_BYTES,
            filter,
        });
        self.pending_round = Some(PendingRound { round: new_round, strong_links: links });
        out.push(
            Action::PullPayload {
                round: new_round,
                max_wait_us: PULL_MAX_WAIT_US,
                max_txns: PULL_MAX_TXNS,
                max_bytes: PULL_MAX_BYTES,
                filter,
            },
        );
        proof {
            lemma_acts_push(old(out)@, act);
        }
    }

    /// Complete the proposal for `round` once its payload arrived: assemble
    /// the node, journal it, advance the round cursor and broadcast. The
    /// journal write stands before the broadcast in the emitted actions. A
    /// payload for a superseded round is ignored.
    pub fn on_payload_ready(
        &mut self,
        round: u64,
        payload: Vec<u64>,
        now_us: u64,
        ledger_info: LedgerInfo,
        out: &mut Vec<Action>,
    )
        requires
            old(self).wf(),
        ensures
            final(self).wf(),
            evolves(*old(self), *final(self)),
            final(self).author == old(self).author,
            final(self).epoch == old(self).epoch,
            final(self).verifier == old(self).verifier,
            final(self).dag == old(self).dag,
            final(self).dag_window == old(self).dag_window,
            ({
                let matched = match old(self).pending_round {
                    Some(p) => p.round == round,
                    None => false,
                };
                if matched {
                    let links = old(self).pending_round->Some_0.strong_links;
                    let nv = (NodeView {
                        epoch: old(self).epoch,
                        round,
                        author: old(self).author,
                        timestamp_us: now_us,
                        payload: payload@,
                        strong_links: links@,
                    });
                    &&& final(self).current_round == round
                    &&& final(self).pending_round is None
                    &&& final(self).rb_abort_handle == Some(RbHandle { round })
                    &&& match old(self).rb_abort_handle {
                        Some(h) => acts(final(out)@) == acts(old(out)@).push(
                            (ActionView::SavePendingNode { node: nv }),
                        ).push((ActionView::BroadcastNode { node: nv, ledger_info })).push(
                            (ActionView::AbortBroadcast { handle: h }),
                        ),
                        None => acts(final(out)@) == acts(old(out)@).push(
                            (ActionView::SavePendingNode { node: nv }),
                        ).push((ActionView::BroadcastNode { node: nv, ledger_info })),
                    }
                } else {
                    &&& *final(self) == *old(self)
                    &&& final(out)@ == old(out)@
                }
            }),
    {
        let matched = match &self.pending_round {
            Some(p) => p.round == round,
            None => false,
        };
        if !matched {
            return ;
        }
        let links = match &self.pending_round {
            Some(p) => copy_metas(&p.strong_links),
            None => unreached(),
        };
        self.pending_round = None;
        self.current_round = round;
        let node = Node {
            epoch: self.epoch,
            round,
            author: self.author,
            timestamp_us: now_us,
            payload,
            strong_links: links,
        };
        let saved = node.duplicate();
        let ghost save_act = (Action::SavePendingNode { node: saved });
        out.push(Action::SavePendingNode { node: saved });
        proof {
            lemma_acts_push(old(out)@, save_act);
        }
        self.broadcast_node(node, ledger_info, out);
    }

    /// Spawn the reliable broadcast of `node` (both phases, one abortable
    /// chain) and record its handle; a previously recorded chain is aborted,
    /// so at most one chain is ever in flight.
    pub fn broadcast_node(&mut self, node: Node, ledger_info: LedgerInfo, out: &mut Vec<Action>)
        requires
            old(self).wf(),
        ensures
            final(self).wf(),
            evolves(*old(self), *final(self)),
            final(self).author == old(self).author,
            final(self).epoch == old(self).epoch,
            final(self).verifier == old(self).verifier,
            final(self).dag == old(self).dag,
            final(self).current_round == old(self).current_round,
            final(self).pending_round == old(self).pending_round,
            final(self).dag_window == old(self).dag_window,
            final(self).rb_abort_handle == Some(RbHandle { round: node.round }),
            match old(self).rb_abort_handle {
                Some(h) => acts(final(out)@) == acts(old(out)@).push(
                    (ActionView::BroadcastNode { node: node@, ledger_info }),
                ).push((ActionView::AbortBroadcast { handle: h })),
                None => acts(final(out)@) == acts(old(out)@).push(
                    (ActionView::BroadcastNode { node: node@, ledger_info }),
                ),
            },
    {
        let prev = self.rb_abort_handle;
        self.rb_abort_handle = Some(RbHandle { round: node.round });
        let ghost bcast = (Action::BroadcastNode { node, ledger_info });
        out.push(Action::BroadcastNode { node, ledger_info });
        proof {
            lemma_acts_push(old(out)@, bcast);
        }
        match prev {
            Some(h) => {
                let ghost mid = out@;
                out.push(Action::AbortBroadcast { handle: h });
                proof {
                    lemma_acts_push(mid, (Action::AbortBroadcast { handle: h }));
                }
            },
            None => {
            },
        }
    }

    /// Handle one certified-node delivery (the peer RPC): a node already in
    /// the DAG is acknowledged without any state change or action; a fresh
    /// node with valid position and present parents is owed a full ingest,
    /// an acknowledgment, and exactly one order-rule notification after the
    /// add. Each failure is typed (`ingest_err`), leaves the state
    /// unchanged, and never notifies the order rule.
    pub fn process(
        &mut self,
        node: CertifiedNode,
        anchor_round: u64,
        out: &mut Vec<Action>,
    ) -> (res: Result<CertifiedAck, DagDriverError>)
        requires
            old(self).wf(),
            links_well_formed(node.node@, old(self).verifier),
        ensures
            final(self).wf(),
            evolves(*old(self), *final(self)),
            old(self).dag.contains_meta(metadata_of(node.node@)) ==> {
                &&& *final(self) == *old(self)
                &&& final(out)@ == old(out)@
                &&& res == Ok::<CertifiedAck, DagDriverError>(
                    CertifiedAck { epoch: node.node.epoch },
                )
            },
            !old(self).dag.contains_meta(metadata_of(node.node@)) ==> match res {
                Ok(ack) => {
                    &&& ack == (CertifiedAck { epoch: node.node.epoch })
                    &&& ingest_ok(*old(self), *final(self), node)
                    &&& acts(final(out)@) == acts(old(out)@) + ingest_actions(
                        *old(self),
                        *final(self),
                        node,
                        anchor_round,
                    ).push((ActionView::NotifyOrderRule { metadata: metadata_of(node.node@) }))
                },
                Err(e) => {
                    &&& *final(self) == *old(self)
                    &&& ingest_err(*old(self), node, e, old(out)@, final(out)@)
                },
            },
    {
        let epoch = node.node.epoch;
        let metadata = node.metadata();
        if self.dag.exists_meta(&metadata) {
            return Ok(CertifiedAck { epoch });
        }
        match self.add_node(node, anchor_round, out) {
            Ok(_) => {
                let ghost mid = out@;
                out.push(Action::NotifyOrderRule { metadata });
                proof {
                    lemma_acts_push(mid, (Action::NotifyOrderRule { metadata }));
                }
                Ok(CertifiedAck { epoch })
            },
            Err(e) => Err(e),
        }
    }
}

/// The chosen round is always able to form strong links, and small enough
/// that the round after it exists.
pub proof fn lemma_chosen_round_ok(dag: Dag, verifier: Verifier)
    requires
        dag.wf(verifier),
    ensures
        dag.strong_links_available(verifier, chosen_round(dag, verifier)),
        chosen_round(dag, verifier) < u64::MAX,
        chosen_round(dag, verifier) <= dag.spec_highest_round(),
{
    let h = dag.spec_highest_round();
    dag.lemma_max_round_upto(dag.nodes@.len() as int);
    if dag.strong_links_available(verifier, h) {
        if h != 0 {
            let i = choose|i: int|
                0 <= i < dag.nodes@.len() && (#[trigger] dag.nodes@[i]).node.round == h;
            assert(links_well_formed(dag.nodes@[i].node@, verifier));
        }
    } else {
        assert(h != 0);
        let i = choose|i: int|
            0 <= i < dag.nodes@.len() && (#[trigger] dag.nodes@[i]).node.round == h;
        dag.lemma_node_at_is(h, dag.nodes@[i].node.author, i);
        dag.lemma_complete_round_below(verifier, h, dag.nodes@[i].node.author);
    }
}

/// Fresh (non-resume) startup: the proposal for `q + 1` is prepared.
pub open spec fn fresh_start(r: DagDriver, dag: Dag, verifier: Verifier, q: u64) -> bool {
    match r.pending_round {
        Some(p) => p.round == q + 1 && p.strong_links@ == dag.links_at(
            q,
            verifier.spec_len() as int,
        ),
        None => false,
    }
}

} // verus!
