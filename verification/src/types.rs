//! Data model: nodes, node metadata, certified nodes and acknowledgments.
//!
//! A node's digest is a deterministic fold over its entire body, so two
//! replicas (or one replica before and after a crash) that assemble the same
//! node always obtain the same metadata.

use vstd::prelude::*;

verus! {

/// Uniquely identifies a node: position `(epoch, round, author)` plus the
/// digest of the node body.
#[derive(Clone, Copy, PartialEq, Eq, Structural, Debug)]
pub struct NodeMetadata {
    pub epoch: u64,
    pub round: u64,
    pub author: u64,
    pub digest: u64,
}

/// Commit progress piggybacked on certified-node messages.
#[derive(Clone, Copy, PartialEq, Eq, Structural, Debug)]
pub struct LedgerInfo {
    /// Round of the highest committed anchor known to this replica.
    pub committed_anchor_round: u64,
}

/// Reply to a certified-node delivery: the node is in the DAG (or was already).
#[derive(Clone, Copy, PartialEq, Eq, Structural, Debug)]
pub struct CertifiedAck {
    pub epoch: u64,
}

/// An uncertified proposal: one validator's node for one round.
///
/// `strong_links` reference certified nodes of round `round - 1`; the payload
/// is a sequence of transaction identifiers (payload contents are opaque to
/// the driver).
pub struct Node {
    pub epoch: u64,
    pub round: u64,
    pub author: u64,
    pub timestamp_us: u64,
    pub payload: Vec<u64>,
    pub strong_links: Vec<NodeMetadata>,
}

/// Mathematical model of a [`Node`].
pub struct NodeView {
    pub epoch: u64,
    pub round: u64,
    pub author: u64,
    pub timestamp_us: u64,
    pub payload: Seq<u64>,
    pub strong_links: Seq<NodeMetadata>,
}

impl View for Node {
    type V = NodeView;

    open spec fn view(&self) -> NodeView {
        NodeView {
            epoch: self.epoch,
            round: self.round,
            author: self.author,
            timestamp_us: self.timestamp_us,
            payload: self.payload@,
            strong_links: self.strong_links@,
        }
    }
}

/// A node together with the aggregate signature that certified it.
///
/// The signature itself is opaque here: cryptographic verification happens
/// before a certified node reaches the driver.
pub struct CertifiedNode {
    pub node: Node,
    pub signatures: Vec<u64>,
}

/// Mathematical model of a [`CertifiedNode`].
pub struct CertifiedNodeView {
    pub node: NodeView,
    pub signatures: Seq<u64>,
}

impl View for CertifiedNode {
    type V = CertifiedNodeView;

    open spec fn view(&self) -> CertifiedNodeView {
        CertifiedNodeView { node: self.node@, signatures: self.signatures@ }
    }
}

/// A certified node plus the sender's latest ledger info.
pub struct CertifiedNodeMessage {
    pub certified_node: CertifiedNode,
    pub ledger_info: LedgerInfo,
}

/// One mixing step of the digest fold, over the ring of `u64` values.
pub open spec fn mix(h: u64, v: u64) -> u64 {
    ((h * 0x100000001b3 + v) % 0x1_0000_0000_0000_0000) as u64
}

/// Digest fold over a sequence of words, head first.
pub open spec fn fold_words(h: u64, s: Seq<u64>) -> u64
    decreases s.len(),
{
    if s.len() == 0 {
        h
    } else {
        fold_words(mix(h, s[0]), s.drop_first())
    }
}

/// Digest fold over one metadata record.
pub open spec fn fold_meta(h: u64, m: NodeMetadata) -> u64 {
    mix(mix(mix(mix(h, m.epoch), m.round), m.author), m.digest)
}

/// Digest fold over a sequence of metadata records, head first.
pub open spec fn fold_links(h: u64, s: Seq<NodeMetadata>) -> u64
    decreases s.len(),
{
    if s.len() == 0 {
        h
    } else {
        fold_links(fold_meta(h, s[0]), s.drop_first())
    }
}

/// The digest of a node body: a fold over every field, so the digest is a
/// function of the node alone. Opaque: contracts treat digests as values.
#[verifier::opaque]
pub open spec fn digest_of(n: NodeView) -> u64 {
    fold_links(
        fold_words(
            mix(
                mix(
                    mix(
                        mix(
                            mix(0x9e3779b97f4a7c15, n.epoch),
                            n.round,
                        ),
                        n.author,
                    ),
                    n.timestamp_us,
                ),
                n.payload.len() as u64,
            ),
            n.payload,
        ),
        n.strong_links,
    )
}

/// The metadata a node presents to the rest of the protocol.
pub open spec fn metadata_of(n: NodeView) -> NodeMetadata {
    NodeMetadata { epoch: n.epoch, round: n.round, author: n.author, digest: digest_of(n) }
}

/// One mixing step, computed in wide arithmetic and reduced.
fn mix_word(h: u64, v: u64) -> (r: u64)
    ensures
        r == mix(h, v),
{
    let wide: u128 = (h as u128) * 0x100000001b3u128 + (v as u128);
    (wide % 0x1_0000_0000_0000_0000u128) as u64
}

/// Digest fold over a word vector.
fn fold_words_exec(h: u64, s: &Vec<u64>) -> (r: u64)
    ensures
        r == fold_words(h, s@),
{
    let mut acc: u64 = h;
    let mut i: usize = 0;
    proof {
        assert(s@.skip(0) =~= s@);
    }
    while i < s.len()
        invariant
            0 <= i <= s@.len(),
            fold_words(acc, s@.skip(i as int)) == fold_words(h, s@),
        decreases s@.len() - i,
    {
        proof {
            assert(s@.skip(i as int).drop_first() =~= s@.skip(i + 1));
        }
        acc = mix_word(acc, s[i]);
        i = i + 1;
    }
    proof {
        assert(s@.skip(i as int) =~= Seq::<u64>::empty());
    }
    acc
}

/// Digest fold over a metadata vector.
fn fold_links_exec(h: u64, s: &Vec<NodeMetadata>) -> (r: u64)
    ensures
        r == fold_links(h, s@),
{
    let mut acc: u64 = h;
    let mut i: usize = 0;
    proof {
        assert(s@.skip(0) =~= s@);
    }
    while i < s.len()
        invariant
            0 <= i <= s@.len(),
            fold_links(acc, s@.skip(i as int)) == fold_links(h, s@),
        decreases s@.len() - i,
    {
        proof {
            assert(s@.skip(i as int).drop_first() =~= s@.skip(i + 1));
        }
        let m = s[i];
        acc = mix_word(mix_word(mix_word(mix_word(acc, m.epoch), m.round), m.author), m.digest);
        i = i + 1;
    }
    proof {
        assert(s@.skip(i as int) =~= Seq::<NodeMetadata>::empty());
    }
    acc
}

/// Copy a word vector element for element.
pub fn copy_words(s: &Vec<u64>) -> (r: Vec<u64>)
    ensures
        r@ == s@,
{
    let mut r: Vec<u64> = Vec::new();
    let mut i: usize = 0;
    while i < s.len()
        invariant
            0 <= i <= s@.len(),
            r@ == s@.take(i as int),
        decreases s@.len() - i,
    {
        r.push(s[i]);
        proof {
            assert(r@ =~= s@.take(i + 1));
        }
        i = i + 1;
    }
    proof {
        assert(s@.take(i as int) =~= s@);
    }
    r
}

/// Copy a metadata vector element for element.
pub fn copy_metas(s: &Vec<NodeMetadata>) -> (r: Vec<NodeMetadata>)
    ensures
        r@ == s@,
{
    let mut r: Vec<NodeMetadata> = Vec::new();
    let mut i: usize = 0;
    while i < s.len()
        invariant
            0 <= i <= s@.len(),
            r@ == s@.take(i as int),
        decreases s@.len() - i,
    {
        r.push(s[i]);
        proof {
            assert(r@ =~= s@.take(i + 1));
        }
        i = i + 1;
    }
    proof {
        assert(s@.take(i as int) =~= s@);
    }
    r
}

impl Node {
    /// Assemble a node from its parts.
    pub fn new(
        epoch: u64,
        round: u64,
        author: u64,
        timestamp_us: u64,
        payload: Vec<u64>,
        strong_links: Vec<NodeMetadata>,
    ) -> (r: Node)
        ensures
            r@ == (NodeView {
                epoch,
                round,
                author,
                timestamp_us,
                payload: payload@,
                strong_links: strong_links@,
            }),
    {
        Node { epoch, round, author, timestamp_us, payload, strong_links }
    }

    /// Compute the digest of this node's body.
    pub fn digest(&self) -> (r: u64)
        ensures
            r == digest_of(self@),
    {
        proof {
            reveal(digest_of);
        }
        let header = mix_word(
            mix_word(
                mix_word(
                    mix_word(
                        mix_word(0x9e3779b97f4a7c15, self.epoch),
                        self.round,
                    ),
                    self.author,
                ),
                self.timestamp_us,
            ),
            self.payload.len() as u64,
        );
        let body = fold_words_exec(header, &self.payload);
        fold_links_exec(body, &self.strong_links)
    }

    /// The metadata by which peers refer to this node.
    pub fn metadata(&self) -> (r: NodeMetadata)
        ensures
            r == metadata_of(self@),
    {
        NodeMetadata {
            epoch: self.epoch,
            round: self.round,
            author: self.author,
            digest: self.digest(),
        }
    }

    /// An identical copy of this node; its view, digest and metadata are equal
    /// to this node's.
    pub fn duplicate(&self) -> (r: Node)
        ensures
            r@ == self@,
    {
        Node {
            epoch: self.epoch,
            round: self.round,
            author: self.author,
            timestamp_us: self.timestamp_us,
            payload: copy_words(&self.payload),
            strong_links: copy_metas(&self.strong_links),
        }
    }
}

impl CertifiedNode {
    /// Pair a node with the aggregate signature that certified it.
    pub fn new(node: Node, signatures: Vec<u64>) -> (r: CertifiedNode)
        ensures
            r@ == (CertifiedNodeView { node: node@, signatures: signatures@ }),
    {
        CertifiedNode { node, signatures }
    }

    /// The metadata of the underlying node.
    pub fn metadata(&self) -> (r: NodeMetadata)
        ensures
            r == metadata_of(self.node@),
    {
        self.node.metadata()
    }
}

impl CertifiedNodeMessage {
    /// Pair a certified node with the sender's latest ledger info.
    pub fn new(certified_node: CertifiedNode, ledger_info: LedgerInfo) -> (r: CertifiedNodeMessage)
        ensures
            r.certified_node@ == certified_node@,
            r.ledger_info == ledger_info,
    {
        CertifiedNodeMessage { certified_node, ledger_info }
    }
}

impl CertifiedAck {
    /// Acknowledgment for the given epoch.
    pub fn new(epoch: u64) -> (r: CertifiedAck)
        ensures
            r.epoch == epoch,
    {
        CertifiedAck { epoch }
    }
}

} // verus!
