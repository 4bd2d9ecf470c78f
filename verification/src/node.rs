//! The node's shared state: the chain store seeded with a genesis
//! block, the pool of pending transactions, and the peer registry,
//! together with the operations that serve requests.
use crate::block::{create_genesis_block, Block};
use crate::errors::ChainError;
use crate::payload::{
    encode_payload, parse_payload, payload_json, txs_view, BlockPayload, PayloadModel, Transaction,
    TxModel,
};
use crate::pow::{is_next_proof, proof_of_work, MAX_SOLVABLE_PROOF};
use vstd::prelude::*;
use vstd::string::StringExecFns;

verus! {

/// The content of the very first block's payload: proof nine, no
/// transactions.
pub open spec fn genesis_payload() -> PayloadModel {
    PayloadModel { proof_of_work: 9, transactions: Seq::empty() }
}

/// What the miner's reward address reads as.
pub open spec fn miner_address_view() -> Seq<char> {
    "q3nf394hjg-random-miner-address-34nf3i4nflkn3oi"@
}

/// The fixed address this node's mining rewards are paid to.
pub fn miner_address() -> (r: &'static str)
    ensures
        r@ == miner_address_view(),
{
    "q3nf394hjg-random-miner-address-34nf3i4nflkn3oi"
}

/// The transaction that rewards this node for sealing a block.
pub open spec fn reward_tx_model() -> TxModel {
    TxModel { from: "network"@, to: miner_address_view(), amount: 1 }
}

/// The answer of an add-peer request.
#[derive(Clone, Copy, Debug, PartialEq, Eq, Structural)]
pub enum PeerStatus {
    Added,
    AlreadyExists,
}

/// A stored chain is sound: non-empty, small enough to index with the
/// block numbers, starting from the genesis shape, every block
/// numbered by its position, fingerprinted over its own fields, and
/// linked to its predecessor's hash.
pub open spec fn chain_wf(c: Seq<Block>) -> bool {
    &&& 1 <= c.len() <= 0x7fff_ffff
    &&& c[0]@.previous_hash == "0"@
    &&& forall|i: int| 0 <= i < c.len() ==> (#[trigger] c[i])@.index == i
    &&& forall|i: int| 0 <= i < c.len() ==> (#[trigger] c[i]).wf()
    &&& forall|i: int| 1 <= i < c.len() ==> (#[trigger] c[i])@.previous_hash == c[i - 1]@.hash
}

/// In a sound chain the block numbers strictly increase, and every
/// block after the first carries its predecessor's hash.
pub proof fn lemma_chain_monotonic(c: Seq<Block>, i: int, j: int)
    requires
        chain_wf(c),
        0 <= i < j < c.len(),
    ensures
        c[i]@.index < c[j]@.index,
        c[j]@.previous_hash == c[j - 1]@.hash,
{
}

/// One node's whole mutable state.
pub struct Node {
    pub chain: Vec<Block>,
    pub pending: Vec<Transaction>,
    pub peers: Vec<String>,
}

/// The host a peer request names, or the default.
pub open spec fn host_or_default(host: Option<&str>) -> Seq<char> {
    match host {
        Some(h) => h@,
        None => "localhost"@,
    }
}

/// The registry key an add-peer request builds.
pub open spec fn peer_address(host: Option<&str>, port: Seq<char>) -> Seq<char> {
    host_or_default(host) + ":"@ + port
}

/// Whether an address is already registered, by exact textual match.
pub open spec fn has_peer(peers: Seq<String>, addr: Seq<char>) -> bool {
    exists|i: int| 0 <= i < peers.len() && (#[trigger] peers[i])@ == addr
}

/// An address that was just appended is registered afterwards.
pub proof fn lemma_added_peer_present(peers: Seq<String>, addr: Seq<char>)
    requires
        peers.len() > 0,
        peers.last()@ == addr,
    ensures
        has_peer(peers, addr),
{
    assert(peers[peers.len() - 1]@ == addr);
}

impl Node {
    /// The node's invariant: its stored chain is sound.
    pub open spec fn wf(self) -> bool {
        chain_wf(self.chain@)
    }

    /// A fresh node: one genesis block sealed over the fixed initial
    /// payload, an empty pool, and no peers.
    pub fn new(now: u64) -> (n: Node)
        ensures
            n.wf(),
            n.chain@.len() == 1,
            n.chain@[0]@.index == 0,
            n.chain@[0]@.timestamp == now as int,
            n.chain@[0]@.previous_hash == "0"@,
            n.chain@[0]@.data == payload_json(genesis_payload()),
            parse_payload(n.chain@[0]@.data) == Some(genesis_payload()),
            n.pending@.len() == 0,
            n.peers@.len() == 0,
    {
        let payload = BlockPayload { proof_of_work: 9, transactions: Vec::new() };
        proof {
            assert(txs_view(payload.transactions@) =~= Seq::<TxModel>::empty());
            assert(payload@ == genesis_payload());
            crate::payload::lemma_payload_round_trip(genesis_payload());
        }
        let data = encode_payload(&payload);
        let genesis = create_genesis_block(data.as_str(), now);
        let mut chain: Vec<Block> = Vec::new();
        chain.push(genesis);
        let n = Node { chain, pending: Vec::new(), peers: Vec::new() };
        proof {
            assert(n.chain@.len() == 1);
            assert(chain_wf(n.chain@));
        }
        n
    }

    /// Accepts one pending transaction; nothing about it is validated.
    pub fn submit_transaction(&mut self, tx: Transaction)
        ensures
            final(self).pending@ == old(self).pending@.push(tx),
            final(self).chain@ == old(self).chain@,
            final(self).peers@ == old(self).peers@,
    {
        self.pending.push(tx);
    }

    /// A copy of the pending pool, for inspection.
    pub fn pending_snapshot(&self) -> (r: Vec<Transaction>)
        ensures
            r@ == self.pending@,
    {
        let mut r: Vec<Transaction> = Vec::new();
        let n = self.pending.len();
        let mut i: usize = 0;
        while i < n
            invariant
                i <= n,
                n == self.pending@.len(),
                r@ =~= self.pending@.take(i as int),
            decreases n - i,
        {
            r.push(self.pending[i].clone());
            assert(r@ =~= self.pending@.take(i + 1));
            i = i + 1;
        }
        assert(self.pending@.take(n as int) =~= self.pending@);
        r
    }

    /// A copy of the stored chain, decoupled from the node before any
    /// further work: the consensus resolver reads this, never the
    /// store itself.
    pub fn chain_snapshot(&self) -> (r: Vec<Block>)
        ensures
            r@ == self.chain@,
    {
        let mut r: Vec<Block> = Vec::new();
        let n = self.chain.len();
        let mut i: usize = 0;
        while i < n
            invariant
                i <= n,
                n == self.chain@.len(),
                r@ =~= self.chain@.take(i as int),
            decreases n - i,
        {
            r.push(self.chain[i].clone());
            assert(r@ =~= self.chain@.take(i + 1));
            i = i + 1;
        }
        assert(self.chain@.take(n as int) =~= self.chain@);
        r
    }

    /// A copy of the registered peer addresses, decoupled from the
    /// registry before any network round trip.
    pub fn peers_snapshot(&self) -> (r: Vec<String>)
        ensures
            r@ == self.peers@,
    {
        let mut r: Vec<String> = Vec::new();
        let n = self.peers.len();
        let mut i: usize = 0;
        while i < n
            invariant
                i <= n,
                n == self.peers@.len(),
                r@ =~= self.peers@.take(i as int),
            decreases n - i,
        {
            r.push(self.peers[i].clone());
            assert(r@ =~= self.peers@.take(i + 1));
            i = i + 1;
        }
        assert(self.peers@.take(n as int) =~= self.peers@);
        r
    }

    /// Registers `host:port`, defaulting the host, refusing a request
    /// without a port, and leaving the registry unchanged when the
    /// exact address is already present.
    pub fn add_peer(&mut self, host: Option<&str>, port: Option<&str>) -> (r: Result<
        PeerStatus,
        ChainError,
    >)
        ensures
            final(self).chain@ == old(self).chain@,
            final(self).pending@ == old(self).pending@,
            match r {
                Ok(PeerStatus::Added) => {
                    &&& port is Some
                    &&& !has_peer(old(self).peers@, peer_address(host, port->Some_0@))
                    &&& final(self).peers@.len() == old(self).peers@.len() + 1
                    &&& forall|i: int|
                        0 <= i < old(self).peers@.len() ==> final(self).peers@[i] == old(
                            self,
                        ).peers@[i]
                    &&& final(self).peers@.last()@ == peer_address(host, port->Some_0@)
                },
                Ok(PeerStatus::AlreadyExists) => {
                    &&& port is Some
                    &&& has_peer(old(self).peers@, peer_address(host, port->Some_0@))
                    &&& final(self).peers@ == old(self).peers@
                },
                Err(e) => {
                    &&& port is None
                    &&& e == ChainError::MissingParameter
                    &&& final(self).peers@ == old(self).peers@
                },
            },
    {
        let p = match port {
            Some(p) => p,
            None => {
                return Err(ChainError::MissingParameter);
            },
        };
        let h = match host {
            Some(h) => h,
            None => "localhost",
        };
        let mut address = String::from_str(h);
        address.append(":");
        address.append(p);
        assert(address@ == peer_address(host, p@));
        let n = self.peers.len();
        let mut i: usize = 0;
        while i < n
            invariant
                i <= n,
                n == self.peers@.len(),
                port is Some,
                p == port->Some_0,
                address@ == peer_address(host, p@),
                forall|j: int| 0 <= j < i ==> (#[trigger] self.peers@[j])@ != address@,
            decreases n - i,
        {
            if self.peers[i] == address {
                proof {
                    assert(self.peers@[i as int]@ == peer_address(host, p@));
                    assert(has_peer(self.peers@, peer_address(host, p@)));
                }
                return Ok(PeerStatus::AlreadyExists);
            }
            i = i + 1;
        }
        assert(!has_peer(self.peers@, address@));
        self.peers.push(address);
        Ok(PeerStatus::Added)
    }

    /// The single write path of the chain: reads the last block's
    /// payload, solves the puzzle over its proof, rewards the miner,
    /// drains the whole pool into a new payload, and appends the new
    /// block sealed at `now`. Fails without any change when the stored
    /// payload does not decode (corrupt state) or when its proof lies
    /// outside what the puzzle is defined and solvable for.
    pub fn mine(&mut self, now: u64) -> (r: Result<Block, ChainError>)
        requires
            old(self).wf(),
            old(self).chain@.len() < 0x7fff_ffff,
        ensures
            final(self).wf(),
            final(self).peers@ == old(self).peers@,
            match r {
                Ok(b) => {
                    &&& parse_payload(old(self).chain@.last()@.data) is Some
                    &&& ({
                        let prior = parse_payload(old(self).chain@.last()@.data)->Some_0;
                        let np = parse_payload(b@.data)->Some_0;
                        &&& 0 < prior.proof_of_work <= MAX_SOLVABLE_PROOF
                        &&& final(self).chain@ == old(self).chain@.push(b)
                        &&& final(self).pending@.len() == 0
                        &&& b@.index == old(self).chain@.len() as int
                        &&& b@.timestamp == now as int
                        &&& b@.previous_hash == old(self).chain@.last()@.hash
                        &&& b.wf()
                        &&& parse_payload(b@.data) is Some
                        &&& b@.data == payload_json(np)
                        &&& np.transactions == txs_view(old(self).pending@).push(reward_tx_model())
                        &&& is_next_proof(prior.proof_of_work as int, np.proof_of_work as int)
                    })
                },
                Err(e) => {
                    &&& final(self).chain@ == old(self).chain@
                    &&& final(self).pending@ == old(self).pending@
                    &&& (e == ChainError::CorruptChainState || e == ChainError::InvalidProof)
                    &&& (e == ChainError::CorruptChainState <==> parse_payload(
                        old(self).chain@.last()@.data,
                    ) is None)
                    &&& (e == ChainError::InvalidProof <==> (parse_payload(
                        old(self).chain@.last()@.data,
                    ) matches Some(m) && (m.proof_of_work == 0 || m.proof_of_work
                        > MAX_SOLVABLE_PROOF)))
                },
            },
    {
        let idx = self.chain.len() - 1;
        let prior = match crate::payload::decode_payload(self.chain[idx].data.as_str()) {
            Ok(p) => p,
            Err(e) => {
                return Err(e);
            },
        };
        let last_proof = prior.proof_of_work;
        if last_proof == 0 || last_proof > MAX_SOLVABLE_PROOF {
            return Err(ChainError::InvalidProof);
        }
        let new_proof = match proof_of_work(last_proof) {
            Ok(v) => v,
            Err(_) => {
                proof {
                    assert(false);
                }
                return Err(ChainError::InvalidProof);
            },
        };
        let reward = Transaction {
            from: String::from_str("network"),
            to: String::from_str(miner_address()),
            amount: 1,
        };
        proof {
            assert(reward@ == reward_tx_model());
        }
        self.pending.push(reward);
        let drained = self.pending_snapshot();
        self.pending.clear();
        let new_payload = BlockPayload { proof_of_work: new_proof, transactions: drained };
        proof {
            assert(drained@ == old(self).pending@.push(reward));
            assert(txs_view(old(self).pending@.push(reward)) =~= txs_view(
                old(self).pending@,
            ).push(reward_tx_model()));
            assert(new_payload@.transactions =~= txs_view(old(self).pending@).push(
                reward_tx_model(),
            ));
            crate::payload::lemma_payload_round_trip(new_payload@);
        }
        let data = encode_payload(&new_payload);
        let new_index = self.chain[idx].index + 1;
        let prev_hash = self.chain[idx].hash.clone();
        let b = Block::new(new_index, now, data.as_str(), prev_hash.as_str());
        let appended = b.clone();
        self.chain.push(appended);
        proof {
            let c = self.chain@;
            let oldc = old(self).chain@;
            assert(c == oldc.push(b));
            assert(c[0] == oldc[0]);
            assert forall|i: int| 0 <= i < c.len() implies (#[trigger] c[i])@.index == i by {
                if i < oldc.len() {
                    assert(c[i] == oldc[i]);
                } else {
                    assert(c[i] == b);
                }
            }
            assert forall|i: int| 0 <= i < c.len() implies (#[trigger] c[i]).wf() by {
                if i < oldc.len() {
                    assert(c[i] == oldc[i]);
                } else {
                    assert(c[i] == b);
                }
            }
            assert forall|i: int| 1 <= i < c.len() implies (#[trigger] c[i])@.previous_hash == c[i
                - 1]@.hash by {
                if i < oldc.len() {
                    assert(c[i] == oldc[i]);
                    assert(c[i - 1] == oldc[i - 1]);
                } else {
                    assert(c[i] == b);
                    assert(c[i - 1] == oldc[oldc.len() - 1]);
                }
            }
            assert(chain_wf(c));
        }
        Ok(b)
    }
}

} // verus!
