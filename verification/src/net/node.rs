use vstd::prelude::*;
use vstd::relations::{sorted_by, total_ordering};
use crate::bytes::{array_eq, be_le, be_value, lemma_be_value_injective};
use crate::crypto::hash::{hash_sha3_256, sha3_256};
use crate::consensus::state::{
    block_hash, block_hash_of, block_outcome, block_signals, build_block_commit, count_sent,
    fresh_and_distinct, law_applied_block_is_tip_and_indexed,
    law_block_tally_sums_distinct_voters, law_nonce_counts_outgoing, pow_accepted,
    saturating_total, verify_block_pow, votes_of, weights_on, Signal,
};
use crate::node::db_common::array32;
use crate::node::store::{account_at, tally_at, vote_key};
use crate::net::mempool::{admission, Mempool};
use crate::net::protocol::{blob_views, MessageView, NetworkMessage, PeerAddr};
use crate::node::db_common::{block_bytes, parse_block, parse_tx, BlockView, StoredBlock, StoredTransaction, TxView};
use crate::node::store::{ChainState, ChainView};
use crate::primitives::block::hash_views;

verus! {

pub const MAX_INBOUND: usize = 128;

pub const MAX_OUTBOUND: usize = 32;

pub const HANDSHAKE_TIMEOUT_SECS: u64 = 10;

pub const MAX_HEADERS_PER_MSG: usize = 500;

pub const MAX_BLOCKS_PER_MSG: usize = 50;

pub const OUTBOUND_CONNECT_TIMEOUT_SECS: u64 = 3;

/// Most addresses that a node remembers.
pub const MAX_KNOWN_ADDRS: usize = 2048;

/// Most addresses sent to a peer after the handshake.
pub const MAX_ADDRS_AFTER_HANDSHAKE: usize = 32;

/// Most newly learned addresses passed on in one broadcast, and most
/// addresses in the answer to `GetAddr`.
pub const MAX_ADDRS_PER_GOSSIP: usize = 64;

/// How far the handshake with a peer has come.
#[derive(PartialEq, Eq, Structural, Debug, Clone, Copy)]
pub enum HandshakeStage {
    Version,
    Challenge,
    Response,
    Done,
}

/// What a node knows of a connected peer.
#[derive(Debug, Clone, Copy)]
pub struct PeerInfo {
    pub height: u32,
    /// The challenge sent to the peer.
    pub challenge: [u8; 32],
    pub is_outbound: bool,
    pub handshake_stage: HandshakeStage,
}

/// What a node does on a handshake message.
#[derive(Debug, Clone)]
pub enum HandshakeReply {
    /// Nothing: the message is no handshake message, or the handshake is done.
    Ignore,
    /// Send the message to the peer.
    Send(NetworkMessage),
    /// Close the peer: its response does not answer the challenge.
    Fail,
    /// The handshake is done.
    Established,
}

/// The mathematical value of a handshake reply.
pub ghost enum ReplyView {
    Ignore,
    Send(MessageView),
    Fail,
    Established,
}

impl View for HandshakeReply {
    type V = ReplyView;

    open spec fn view(&self) -> ReplyView {
        match self {
            HandshakeReply::Ignore => ReplyView::Ignore,
            HandshakeReply::Send(m) => ReplyView::Send(m@),
            HandshakeReply::Fail => ReplyView::Fail,
            HandshakeReply::Established => ReplyView::Established,
        }
    }
}

/// The record of a peer after a handshake message.
///
/// The peer's `Version` gives its height and is answered with a fresh
/// challenge; a `Response` that answers the challenge sent moves the stage
/// on; `Verack` ends the handshake.
pub open spec fn handshake_next(info: PeerInfo, m: MessageView, fresh: [u8; 32]) -> PeerInfo {
    if info.handshake_stage == HandshakeStage::Done {
        info
    } else {
        match m {
            MessageView::Version { height } => PeerInfo {
                height,
                challenge: fresh,
                handshake_stage: HandshakeStage::Challenge,
                ..info
            },
            MessageView::Response(r) => if r == sha3_256(info.challenge@) {
                PeerInfo { handshake_stage: HandshakeStage::Response, ..info }
            } else {
                info
            },
            MessageView::Verack => PeerInfo { handshake_stage: HandshakeStage::Done, ..info },
            _ => info,
        }
    }
}

/// The answer to a handshake message.
///
/// A `Version` is answered with a challenge, a `Challenge` with the
/// SHA3-256 of it, a `Response` with `Verack` where it is the SHA3-256 of
/// the challenge sent, and with closing the peer where it is not.
pub open spec fn handshake_answer(info: PeerInfo, m: MessageView, fresh: [u8; 32]) -> ReplyView {
    if info.handshake_stage == HandshakeStage::Done {
        ReplyView::Ignore
    } else {
        match m {
            MessageView::Version { height } => ReplyView::Send(MessageView::Challenge(fresh@)),
            MessageView::Challenge(c) => ReplyView::Send(MessageView::Response(sha3_256(c))),
            MessageView::Response(r) => if r == sha3_256(info.challenge@) {
                ReplyView::Send(MessageView::Verack)
            } else {
                ReplyView::Fail
            },
            MessageView::Verack => ReplyView::Established,
            _ => ReplyView::Ignore,
        }
    }
}

impl PeerInfo {
    /// The record of a peer whose connection has just opened.
    pub fn new(is_outbound: bool) -> (info: Self)
        ensures
            info.handshake_stage == HandshakeStage::Version,
            info.is_outbound == is_outbound,
            info.height == 0,
            info.challenge@ == Seq::new(32, |i: int| 0u8),
    {
        let challenge = [0u8; 32];
        assert(challenge@ =~= Seq::new(32, |i: int| 0u8));
        PeerInfo { height: 0, challenge, is_outbound, handshake_stage: HandshakeStage::Version }
    }
}

/// Takes one handshake message of a peer. `fresh` is a new random
/// challenge, used where the message is the peer's `Version`.
pub fn handshake_step(info: &mut PeerInfo, msg: &NetworkMessage, fresh: &[u8; 32]) -> (reply:
    HandshakeReply)
    ensures
        *final(info) == handshake_next(*old(info), msg@, *fresh),
        reply@ == handshake_answer(*old(info), msg@, *fresh),
{
    if info.handshake_stage == HandshakeStage::Done {
        return HandshakeReply::Ignore;
    }
    match msg {
        NetworkMessage::Version { height } => {
            info.height = *height;
            info.handshake_stage = HandshakeStage::Challenge;
            info.challenge = *fresh;
            HandshakeReply::Send(NetworkMessage::Challenge(*fresh))
        },
        NetworkMessage::Challenge(received) => {
            let response = hash_sha3_256(received.as_slice());
            HandshakeReply::Send(NetworkMessage::Response(response))
        },
        NetworkMessage::Response(received) => {
            let expected = hash_sha3_256(info.challenge.as_slice());
            if array_eq(received, &expected) {
                info.handshake_stage = HandshakeStage::Response;
                HandshakeReply::Send(NetworkMessage::Verack)
            } else {
                HandshakeReply::Fail
            }
        },
        NetworkMessage::Verack => {
            info.handshake_stage = HandshakeStage::Done;
            HandshakeReply::Established
        },
        _ => HandshakeReply::Ignore,
    }
}

/// Whether the handshake has run out of time: it is not done, and the
/// clock is past the deadline, ten seconds after the connection opened.
pub open spec fn handshake_timed_out(stage: HandshakeStage, opened: u64, now: u64) -> bool {
    stage != HandshakeStage::Done && now > opened + 10
}

pub fn handshake_expired(stage: HandshakeStage, opened: u64, now: u64) -> (r: bool)
    ensures
        r == handshake_timed_out(stage, opened, now),
{
    stage != HandshakeStage::Done && now as u128 > opened as u128 + HANDSHAKE_TIMEOUT_SECS as u128
}

/// Whether an address is a loopback or private one: 127.0.0.0/8,
/// 10.0.0.0/8, 172.16.0.0/12, 192.168.0.0/16, ::1 and fc00::/7.
pub open spec fn private_ip(addr: PeerAddr) -> bool {
    match addr {
        PeerAddr::V4 { ip, port } => ip@[0] == 127 || ip@[0] == 10 || (ip@[0] == 172 && 16
            <= ip@[1] <= 31) || (ip@[0] == 192 && ip@[1] == 168),
        PeerAddr::V6 { ip, port } => (ip@[0] == 0xFC || ip@[0] == 0xFD) || (ip@[15] == 1
            && forall|i: int| 0 <= i < 15 ==> ip@[i] == 0),
    }
}

#[verifier::loop_isolation(false)]
pub fn is_private_ip(addr: &PeerAddr) -> (r: bool)
    ensures
        r == private_ip(*addr),
{
    match addr {
        PeerAddr::V4 { ip, port } => ip[0] == 127 || ip[0] == 10 || (ip[0] == 172 && 16 <= ip[1]
            && ip[1] <= 31) || (ip[0] == 192 && ip[1] == 168),
        PeerAddr::V6 { ip, port } => {
            if ip[0] == 0xFC || ip[0] == 0xFD {
                return true;
            }
            if ip[15] != 1 {
                return false;
            }
            let mut i: usize = 0;
            while i < 15
                invariant
                    i <= 15,
                    forall|k: int| 0 <= k < i ==> ip@[k] == 0,
                decreases 15 - i,
            {
                if ip[i] != 0 {
                    return false;
                }
                i += 1;
            }
            true
        },
    }
}

/// Whether two addresses are the same.
pub fn addr_eq(a: &PeerAddr, b: &PeerAddr) -> (r: bool)
    ensures
        r == (*a == *b),
{
    match (a, b) {
        (PeerAddr::V4 { ip: x, port: p }, PeerAddr::V4 { ip: y, port: q }) => array_eq(x, y)
            && *p == *q,
        (PeerAddr::V6 { ip: x, port: p }, PeerAddr::V6 { ip: y, port: q }) => array_eq(x, y)
            && *p == *q,
        _ => false,
    }
}

/// Whether a new inbound connection is taken: fewer than 128 inbound peers,
/// and no private address unless those are allowed.
pub fn accepts_inbound(inbound_count: usize, peer: &PeerAddr, allow_local: bool) -> (r: bool)
    ensures
        r == (inbound_count < 128 && (allow_local || !private_ip(*peer))),
{
    inbound_count < MAX_INBOUND && (allow_local || !is_private_ip(peer))
}

/// Why a peer is not dialled.
#[derive(Debug, Clone, Copy, PartialEq, Eq, Structural)]
pub enum DialRefusal {
    PrivateAddress,
    MaxOutboundReached,
}

/// Whether a peer may be dialled: no private address unless those are
/// allowed, and fewer than 32 outbound peers.
pub fn may_dial(outbound_count: usize, peer: &PeerAddr, allow_local: bool) -> (r: Result<
    (),
    DialRefusal,
>)
    ensures
        r == (if !allow_local && private_ip(*peer) {
            Err::<(), DialRefusal>(DialRefusal::PrivateAddress)
        } else if outbound_count >= 32 {
            Err::<(), DialRefusal>(DialRefusal::MaxOutboundReached)
        } else {
            Ok::<(), DialRefusal>(())
        }),
{
    if !allow_local && is_private_ip(peer) {
        return Err(DialRefusal::PrivateAddress);
    }
    if outbound_count >= MAX_OUTBOUND {
        return Err(DialRefusal::MaxOutboundReached);
    }
    Ok(())
}

/// Position of `addr` in `list`.
pub fn find_addr(list: &Vec<PeerAddr>, addr: &PeerAddr) -> (r: Option<usize>)
    ensures
        match r {
            Some(i) => i < list@.len() && list@[i as int] == *addr,
            None => !list@.contains(*addr),
        },
{
    let mut i: usize = 0;
    while i < list.len()
        invariant
            i <= list@.len(),
            forall|k: int| 0 <= k < i ==> list@[k] != *addr,
        decreases list@.len() - i,
    {
        if addr_eq(&list[i], addr) {
            return Some(i);
        }
        i += 1;
    }
    None
}

/// The addresses other than `peer`.
pub open spec fn other_than(peer: PeerAddr) -> spec_fn(PeerAddr) -> bool {
    |a: PeerAddr| a != peer
}

/// The first `limit` addresses of `known` that are not `peer`.
pub open spec fn addrs_for_peer(known: Seq<PeerAddr>, peer: PeerAddr, limit: nat) -> Seq<PeerAddr> {
    let others = known.filter(other_than(peer));
    if others.len() <= limit {
        others
    } else {
        others.take(limit as int)
    }
}

/// Selects the first `limit` known addresses other than the peer's own.
pub fn select_addrs(known: &Vec<PeerAddr>, peer: &PeerAddr, limit: usize) -> (out: Vec<PeerAddr>)
    ensures
        out@ == addrs_for_peer(known@, *peer, limit as nat),
{
    let ghost keep = other_than(*peer);
    let mut out: Vec<PeerAddr> = Vec::new();
    let mut i: usize = 0;
    assert(known@.take(0) =~= Seq::<PeerAddr>::empty());
    while i < known.len() && out.len() < limit
        invariant
            i <= known@.len(),
            keep == other_than(*peer),
            out@.len() <= limit,
            out@ == known@.take(i as int).filter(keep),
        decreases known@.len() - i,
    {
        proof {
            assert(known@.take(i + 1) =~= known@.take(i as int).push(known@[i as int]));
            lemma_filter_push(known@.take(i as int), known@[i as int], keep);
        }
        if !addr_eq(&known[i], peer) {
            out.push(known[i]);
        }
        i += 1;
    }
    proof {
        let others = known@.filter(keep);
        lemma_filter_prefix(known@, i as int, keep);
        if out@.len() < limit {
            assert(known@.take(i as int) =~= known@);
        } else {
            assert(others.take(limit as int) == out@);
            if others.len() <= limit {
                assert(others.take(limit as int) =~= others);
            }
        }
    }
    out
}

/// Filtering a sequence that grew by one element.
pub proof fn lemma_filter_push<A>(s: Seq<A>, x: A, keep: spec_fn(A) -> bool)
    ensures
        s.push(x).filter(keep) == (if keep(x) {
            s.filter(keep).push(x)
        } else {
            s.filter(keep)
        }),
{
    reveal(Seq::filter);
    assert(s.push(x).drop_last() =~= s);
}

/// The filtered prefix is a prefix of the filtered whole.
pub proof fn lemma_filter_prefix<A>(s: Seq<A>, i: int, keep: spec_fn(A) -> bool)
    requires
        0 <= i <= s.len(),
    ensures
        s.take(i).filter(keep).len() <= s.filter(keep).len(),
        s.filter(keep).take(s.take(i).filter(keep).len() as int) == s.take(i).filter(keep),
    decreases s.len() - i,
{
    if i == s.len() {
        assert(s.take(i) =~= s);
        assert(s.filter(keep).take(s.filter(keep).len() as int) =~= s.filter(keep));
    } else {
        lemma_filter_prefix(s, i + 1, keep);
        assert(s.take(i + 1) =~= s.take(i).push(s[i]));
        lemma_filter_push(s.take(i), s[i], keep);
        let short = s.take(i).filter(keep);
        let long = s.take(i + 1).filter(keep);
        assert(long.take(short.len() as int) =~= short);
        assert(s.filter(keep).take(short.len() as int) =~= s.filter(keep).take(
            long.len() as int,
        ).take(short.len() as int));
    }
}


/// The hash that stands for "no tip": 32 zero bytes.
pub open spec fn zero_hash() -> Seq<u8> {
    Seq::new(32, |i: int| 0u8)
}

/// The hash from which a node asks for headers: its tip, or the zero hash.
pub open spec fn sync_start(view: ChainView) -> Seq<u8> {
    match view.tip {
        Some(h) => h@,
        None => zero_hash(),
    }
}

/// The request for the headers that follow the node's tip.
pub fn request_headers(state: &ChainState) -> (m: NetworkMessage)
    ensures
        m@ == (MessageView::GetHeaders { from_hash: sync_start(state@) }),
{
    let from_hash = match state.get_tip() {
        Some(h) => h,
        None => {
            let zero = [0u8; 32];
            assert(zero@ =~= zero_hash());
            zero
        },
    };
    NetworkMessage::GetHeaders { from_hash }
}

/// What a node sends when the handshake is done: a request for headers
/// from its tip, up to 32 known addresses (if it knows any other than the
/// peer's), and a request for addresses.
pub open spec fn greeting(view: ChainView, known: Seq<PeerAddr>, peer: PeerAddr) -> Seq<
    MessageView,
> {
    let list = addrs_for_peer(known, peer, 32);
    if list.len() == 0 {
        seq![MessageView::GetHeaders { from_hash: sync_start(view) }, MessageView::GetAddr]
    } else {
        seq![
            MessageView::GetHeaders { from_hash: sync_start(view) },
            MessageView::Addr(list),
            MessageView::GetAddr,
        ]
    }
}

/// The values of a run of messages.
pub open spec fn message_views(msgs: Seq<NetworkMessage>) -> Seq<MessageView> {
    Seq::new(msgs.len(), |i: int| msgs[i]@)
}

/// The messages that follow a finished handshake.
pub fn post_handshake_messages(state: &ChainState, known: &Vec<PeerAddr>, peer: &PeerAddr) -> (out:
    Vec<NetworkMessage>)
    ensures
        message_views(out@) == greeting(state@, known@, *peer),
{
    let mut out: Vec<NetworkMessage> = Vec::new();
    out.push(request_headers(state));
    let list = select_addrs(known, peer, MAX_ADDRS_AFTER_HANDSHAKE);
    if list.len() > 0 {
        out.push(NetworkMessage::Addr(list));
    }
    out.push(NetworkMessage::GetAddr);
    assert(message_views(out@) =~= greeting(state@, known@, *peer));
    out
}

/// The height after which headers are sent to a peer that has `from_hash`:
/// the height of that block, or zero where the block is not stored.
pub open spec fn known_height(view: ChainView, from_hash: Seq<u8>) -> u32 {
    if view.blocks.contains_key(from_hash) {
        view.blocks[from_hash].height()
    } else {
        0
    }
}

/// The hashes indexed at the `n` heights from `start` on, lowest first;
/// heights without an index entry are passed over.
pub open spec fn indexed_hashes(view: ChainView, start: int, n: nat) -> Seq<Seq<u8>>
    decreases n,
{
    if n == 0 {
        Seq::<Seq<u8>>::empty()
    } else {
        let lower = indexed_hashes(view, start, (n - 1) as nat);
        let h = start + n - 1;
        if 0 <= h <= u32::MAX {
            match view.hash_at_height(h as u32) {
                Some(hash) => lower.push(hash@),
                None => lower,
            }
        } else {
            lower
        }
    }
}

/// The headers sent in answer to `GetHeaders`: the hashes of up to 500
/// heights behind the block that the peer names, and none above the tip.
pub open spec fn headers_to_send(view: ChainView, from_hash: Seq<u8>) -> Seq<Seq<u8>> {
    let start = if known_height(view, from_hash) == u32::MAX {
        u32::MAX as int
    } else {
        known_height(view, from_hash) + 1
    };
    let end = if start + 499 <= view.chain_height() {
        start + 499
    } else {
        view.chain_height() as int
    };
    if end < start {
        Seq::<Seq<u8>>::empty()
    } else {
        indexed_hashes(view, start, (end - start + 1) as nat)
    }
}

/// The headers that follow `from_hash`.
pub fn headers_after(state: &ChainState, from_hash: &[u8; 32]) -> (hashes: Vec<[u8; 32]>)
    requires
        state.wf(),
    ensures
        hash_views(hashes@) == headers_to_send(state@, from_hash@),
{
    let tip_height = state.get_chain_height();
    let known = match state.get_block(from_hash) {
        Some(b) => b.height(),
        None => 0,
    };
    let start: u32 = known.saturating_add(1);
    let end: u32 = if start as u64 + 499 <= tip_height as u64 {
        start + 499
    } else {
        tip_height
    };
    let mut hashes: Vec<[u8; 32]> = Vec::new();
    if end < start {
        assert(hash_views(hashes@) =~= Seq::<Seq<u8>>::empty());
        return hashes;
    }
    let n: u64 = (end - start) as u64 + 1;
    let mut i: u64 = 0;
    assert(hash_views(hashes@) =~= Seq::<Seq<u8>>::empty());
    while i < n
        invariant
            state.wf(),
            i <= n,
            n == end - start + 1,
            start <= end,
            hash_views(hashes@) == indexed_hashes(state@, start as int, i as nat),
        decreases n - i,
    {
        let h: u32 = (start as u64 + i) as u32;
        match state.get_block_hash_by_height(h) {
            Some(hash) => {
                proof {
                    assert(hash_views(hashes@.push(hash)) =~= hash_views(hashes@).push(hash@));
                }
                hashes.push(hash);
            },
            None => {},
        }
        i += 1;
    }
    hashes
}

/// The values of the hashes whose blocks the store lacks, in order.
pub open spec fn missing_hashes(view: ChainView, hashes: Seq<Seq<u8>>) -> Seq<Seq<u8>> {
    hashes.filter(lacking(view))
}

/// The hashes under which the store holds no block.
pub open spec fn lacking(view: ChainView) -> spec_fn(Seq<u8>) -> bool {
    |h: Seq<u8>| !view.blocks.contains_key(h)
}

/// The hashes of `hashes` whose blocks the store lacks.
pub fn missing_blocks(state: &ChainState, hashes: &Vec<[u8; 32]>) -> (needed: Vec<[u8; 32]>)
    requires
        state.wf(),
    ensures
        hash_views(needed@) == missing_hashes(state@, hash_views(hashes@)),
{
    let ghost all = hash_views(hashes@);
    let mut needed: Vec<[u8; 32]> = Vec::new();
    let mut i: usize = 0;
    assert(all.take(0) =~= Seq::<Seq<u8>>::empty());
    assert(hash_views(needed@) =~= Seq::<Seq<u8>>::empty());
    while i < hashes.len()
        invariant
            state.wf(),
            i <= hashes@.len(),
            all == hash_views(hashes@),
            hash_views(needed@) == all.take(i as int).filter(lacking(state@)),
        decreases hashes@.len() - i,
    {
        proof {
            assert(all.take(i + 1) =~= all.take(i as int).push(all[i as int]));
            lemma_filter_push(all.take(i as int), all[i as int], lacking(state@));
        }
        if !state.has_block(&hashes[i]) {
            proof {
                assert(hash_views(needed@.push(hashes@[i as int])) =~= hash_views(needed@).push(
                    all[i as int],
                ));
            }
            needed.push(hashes[i]);
        }
        i += 1;
    }
    assert(all.take(i as int) =~= all);
    needed
}

/// Requests for blocks, at most 50 hashes in each: the first `n` requests
/// for `needed`.
pub open spec fn block_requests(needed: Seq<Seq<u8>>, n: nat) -> Seq<MessageView>
    decreases n,
{
    if n == 0 {
        Seq::<MessageView>::empty()
    } else {
        let from: int = 50 * (n - 1);
        let to: int = if 50 * n <= needed.len() {
            50 * n as int
        } else {
            needed.len() as int
        };
        block_requests(needed, (n - 1) as nat).push(
            MessageView::GetBlocks { hashes: needed.subrange(from, to) },
        )
    }
}

/// The answer to `Headers`: nothing where the list is empty (the node is
/// in sync); a request for further headers where every block is stored;
/// else requests for the missing blocks, 50 at a time.
pub open spec fn headers_answer(view: ChainView, hashes: Seq<Seq<u8>>) -> Seq<MessageView> {
    let needed = missing_hashes(view, hashes);
    if hashes.len() == 0 {
        Seq::<MessageView>::empty()
    } else if needed.len() == 0 {
        seq![MessageView::GetHeaders { from_hash: sync_start(view) }]
    } else {
        block_requests(needed, ((needed.len() + 49) / 50) as nat)
    }
}

/// Takes a `Headers` message.
pub fn on_headers(state: &ChainState, hashes: &Vec<[u8; 32]>) -> (out: Vec<NetworkMessage>)
    requires
        state.wf(),
    ensures
        message_views(out@) == headers_answer(state@, hash_views(hashes@)),
{
    let mut out: Vec<NetworkMessage> = Vec::new();
    if hashes.len() == 0 {
        assert(message_views(out@) =~= Seq::<MessageView>::empty());
        return out;
    }
    let needed = missing_blocks(state, hashes);
    if needed.len() == 0 {
        out.push(request_headers(state));
        assert(message_views(out@) =~= seq![
            MessageView::GetHeaders { from_hash: sync_start(state@) },
        ]);
        return out;
    }
    let ghost views = hash_views(needed@);
    let total = needed.len();
    let chunks = total / 50 + (if total % 50 == 0 {
        0
    } else {
        1
    });
    let mut c: usize = 0;
    assert(message_views(out@) =~= Seq::<MessageView>::empty());
    while c < chunks
        invariant
            c <= chunks,
            total == needed@.len(),
            chunks == (total + 49) / 50,
            views == hash_views(needed@),
            message_views(out@) == block_requests(views, c as nat),
        decreases chunks - c,
    {
        let from = 50 * c;
        let to = if total - from >= 50 {
            from + 50
        } else {
            total
        };
        let mut chunk: Vec<[u8; 32]> = Vec::new();
        let mut i: usize = from;
        while i < to
            invariant
                from <= i <= to <= needed@.len(),
                chunk@.len() == i - from,
                forall|k: int| 0 <= k < chunk@.len() ==> chunk@[k] == needed@[from + k],
            decreases to - i,
        {
            chunk.push(needed[i]);
            i += 1;
        }
        proof {
            assert(hash_views(chunk@) =~= views.subrange(from as int, to as int));
            let m = NetworkMessage::GetBlocks { hashes: chunk };
            assert(message_views(out@.push(m)) =~= message_views(out@).push(m@));
        }
        out.push(NetworkMessage::GetBlocks { hashes: chunk });
        c += 1;
    }
    out
}

/// The serialised forms of the blocks stored under the first `n` hashes,
/// in order; hashes without a block are passed over.
pub open spec fn stored_block_bytes(view: ChainView, hashes: Seq<Seq<u8>>, n: nat) -> Seq<Seq<u8>>
    decreases n,
{
    if n == 0 {
        Seq::<Seq<u8>>::empty()
    } else {
        let before = stored_block_bytes(view, hashes, (n - 1) as nat);
        if view.blocks.contains_key(hashes[n - 1]) {
            before.push(block_bytes(view.blocks[hashes[n - 1]]))
        } else {
            before
        }
    }
}

/// Takes a `GetBlocks` message: the stored blocks among those asked for,
/// or nothing where none is stored.
pub fn on_get_blocks(state: &ChainState, hashes: &Vec<[u8; 32]>) -> (r: Option<NetworkMessage>)
    requires
        state.wf(),
    ensures
        match r {
            Some(m) => m@ == MessageView::Blocks(
                stored_block_bytes(state@, hash_views(hashes@), hashes@.len()),
            ) && stored_block_bytes(state@, hash_views(hashes@), hashes@.len()).len() > 0,
            None => stored_block_bytes(state@, hash_views(hashes@), hashes@.len()).len() == 0,
        },
{
    let ghost views = hash_views(hashes@);
    let mut blocks: Vec<Vec<u8>> = Vec::new();
    let mut i: usize = 0;
    assert(blob_views(blocks@) =~= Seq::<Seq<u8>>::empty());
    while i < hashes.len()
        invariant
            state.wf(),
            i <= hashes@.len(),
            views == hash_views(hashes@),
            blob_views(blocks@) == stored_block_bytes(state@, views, i as nat),
        decreases hashes@.len() - i,
    {
        match state.get_block(&hashes[i]) {
            Some(b) => {
                let raw = b.to_bytes();
                proof {
                    assert(blob_views(blocks@.push(raw)) =~= blob_views(blocks@).push(raw@));
                }
                blocks.push(raw);
            },
            None => {},
        }
        i += 1;
    }
    if blocks.len() > 0 {
        Some(NetworkMessage::Blocks(blocks))
    } else {
        None
    }
}

/// Takes a `Tx` message: the transaction is parsed and offered to the
/// pool; where the pool admits it, the message is passed on to the other
/// peers.
pub fn on_tx(mempool: &mut Mempool, raw: Vec<u8>) -> (r: Option<NetworkMessage>)
    requires
        old(mempool).wf(),
    ensures
        final(mempool).wf(),
        match parse_tx(raw@) {
            Ok((t, n)) => match admission(old(mempool)@, t) {
                Ok(pool) => final(mempool)@ == pool && r.is_some() && r.unwrap()@
                    == MessageView::Tx(raw@),
                Err(_) => final(mempool)@ == old(mempool)@ && r.is_none(),
            },
            Err(_) => final(mempool)@ == old(mempool)@ && r.is_none(),
        },
{
    match StoredTransaction::from_bytes(raw.as_slice()) {
        Ok((tx, _)) => match mempool.add_transaction(tx) {
            Ok(_) => Some(NetworkMessage::Tx(raw)),
            Err(_) => None,
        },
        Err(_) => None,
    }
}

/// Whether an address that a peer sent is taken into the known set: it is
/// not the peer's own, not private (unless those are allowed), not known
/// yet, and the set holds fewer than 2048 addresses.
pub open spec fn learns(known: Seq<PeerAddr>, a: PeerAddr, peer: PeerAddr, allow_local: bool) -> bool {
    a != peer && (allow_local || !private_ip(a)) && known.len() < 2048 && !known.contains(a)
}

/// The known set after the first `n` addresses of a peer's list.
pub open spec fn known_after(
    known: Seq<PeerAddr>,
    addrs: Seq<PeerAddr>,
    peer: PeerAddr,
    allow_local: bool,
    n: nat,
) -> Seq<PeerAddr>
    decreases n,
{
    if n == 0 {
        known
    } else {
        let before = known_after(known, addrs, peer, allow_local, (n - 1) as nat);
        if learns(before, addrs[n - 1], peer, allow_local) {
            before.push(addrs[n - 1])
        } else {
            before
        }
    }
}

/// Takes the addresses of an `Addr` message into the known set and gives
/// those that are new, in the order in which they came.
pub fn learn_addresses(
    known: &mut Vec<PeerAddr>,
    addrs: &Vec<PeerAddr>,
    peer: &PeerAddr,
    allow_local: bool,
) -> (newly: Vec<PeerAddr>)
    ensures
        final(known)@ == known_after(old(known)@, addrs@, *peer, allow_local, addrs@.len()),
        final(known)@ == old(known)@ + newly@,
{
    let mut newly: Vec<PeerAddr> = Vec::new();
    let mut i: usize = 0;
    assert(known@ =~= old(known)@ + newly@);
    while i < addrs.len()
        invariant
            i <= addrs@.len(),
            known@ == known_after(old(known)@, addrs@, *peer, allow_local, i as nat),
            known@ == old(known)@ + newly@,
        decreases addrs@.len() - i,
    {
        let a = addrs[i];
        if !addr_eq(&a, peer) && (allow_local || !is_private_ip(&a)) && known.len()
            < MAX_KNOWN_ADDRS && find_addr(known, &a).is_none() {
            known.push(a);
            newly.push(a);
            assert(known@ =~= old(known)@ + newly@);
        }
        i += 1;
    }
    newly
}

/// Takes a `GetAddr` message: up to 64 known addresses other than the
/// peer's own, or nothing where there is none.
pub fn on_get_addr(known: &Vec<PeerAddr>, peer: &PeerAddr) -> (r: Option<NetworkMessage>)
    ensures
        match r {
            Some(m) => m@ == MessageView::Addr(addrs_for_peer(known@, *peer, 64))
                && addrs_for_peer(known@, *peer, 64).len() > 0,
            None => addrs_for_peer(known@, *peer, 64).len() == 0,
        },
{
    let list = select_addrs(known, peer, MAX_ADDRS_PER_GOSSIP);
    if list.len() > 0 {
        Some(NetworkMessage::Addr(list))
    } else {
        None
    }
}


/// A block on its way through sync: the block, its hash, and the
/// proof-of-work hash once the engine has computed it.
#[derive(Debug, Clone)]
pub struct SyncBlock {
    pub block: StoredBlock,
    pub hash: [u8; 32],
    pub pow_hash: [u8; 32],
}

/// The mathematical value of a block in sync.
pub ghost struct SyncBlockView {
    pub block: BlockView,
    pub hash: Seq<u8>,
    pub pow_hash: Seq<u8>,
}

impl View for SyncBlock {
    type V = SyncBlockView;

    open spec fn view(&self) -> SyncBlockView {
        SyncBlockView { block: self.block@, hash: self.hash@, pow_hash: self.pow_hash@ }
    }
}

/// The values of a run of blocks in sync.
pub open spec fn sync_views(blocks: Seq<SyncBlock>) -> Seq<SyncBlockView> {
    Seq::new(blocks.len(), |i: int| blocks[i]@)
}

/// `sorted` with `b` put behind the last block that is not higher than `b`.
pub open spec fn insert_by_height(sorted: Seq<SyncBlockView>, b: SyncBlockView) -> Seq<
    SyncBlockView,
>
    decreases sorted.len(),
{
    if sorted.len() == 0 {
        seq![b]
    } else if sorted.last().block.height() <= b.block.height() {
        sorted.push(b)
    } else {
        insert_by_height(sorted.drop_last(), b).push(sorted.last())
    }
}

/// The blocks in ascending order of height; blocks of one height keep
/// their order.
pub open spec fn sorted_by_height(blocks: Seq<SyncBlockView>) -> Seq<SyncBlockView>
    decreases blocks.len(),
{
    if blocks.len() == 0 {
        Seq::<SyncBlockView>::empty()
    } else {
        insert_by_height(sorted_by_height(blocks.drop_last()), blocks.last())
    }
}

proof fn lemma_insert_position(sorted: Seq<SyncBlockView>, b: SyncBlockView, pos: int)
    requires
        0 <= pos <= sorted.len(),
        forall|j: int| pos <= j < sorted.len() ==> sorted[j].block.height() > b.block.height(),
        pos > 0 ==> sorted[pos - 1].block.height() <= b.block.height(),
    ensures
        insert_by_height(sorted, b) == sorted.insert(pos, b),
    decreases sorted.len() - pos,
{
    if sorted.len() == 0 {
        assert(sorted.insert(pos, b) =~= seq![b]);
    } else if pos == sorted.len() {
        assert(sorted.insert(pos, b) =~= sorted.push(b));
    } else {
        lemma_insert_position(sorted.drop_last(), b, pos);
        assert(sorted.insert(pos, b) =~= sorted.drop_last().insert(pos, b).push(sorted.last()));
    }
}

/// Sorts blocks by height, ascending; blocks of one height keep their order.
pub fn sort_by_height(blocks: Vec<SyncBlock>) -> (sorted: Vec<SyncBlock>)
    ensures
        sync_views(sorted@) == sorted_by_height(sync_views(blocks@)),
{
    let ghost all = sync_views(blocks@);
    let mut rest = blocks;
    let mut sorted: Vec<SyncBlock> = Vec::new();
    assert(all.take(0) =~= Seq::<SyncBlockView>::empty());
    assert(sync_views(sorted@) =~= Seq::<SyncBlockView>::empty());
    assert(sync_views(rest@) =~= all.skip(0));
    let ghost mut k: int = 0;
    while rest.len() > 0
        invariant
            0 <= k <= all.len(),
            sync_views(rest@) == all.skip(k),
            sync_views(sorted@) == sorted_by_height(all.take(k)),
        decreases rest@.len(),
    {
        let ghost rest_before = rest@;
        let b = rest.remove(0);
        let height = b.block.height();
        let mut pos: usize = sorted.len();
        while pos > 0 && sorted[pos - 1].block.height() > height
            invariant
                pos <= sorted@.len(),
                height == b@.block.height(),
                forall|j: int|
                    pos <= j < sorted@.len() ==> (#[trigger] sorted@[j])@.block.height() > height,
            decreases pos,
        {
            pos -= 1;
        }
        proof {
            let views = sync_views(sorted@);
            assert(sync_views(rest_before).len() == rest_before.len());
            assert(all.skip(k).len() == all.len() - k);
            assert(k < all.len());
            assert(sync_views(rest_before)[0] == b@);
            assert(all.skip(k)[0] == all[k]);
            assert(all.take(k + 1).drop_last() =~= all.take(k));
            assert(all.take(k + 1).last() == b@);
            assert forall|j: int| pos <= j < views.len() implies views[j].block.height()
                > b@.block.height() by {
                assert(views[j] == sorted@[j]@);
            }
            if pos > 0 {
                assert(views[pos - 1] == sorted@[pos - 1]@);
            }
            lemma_insert_position(views, b@, pos as int);
            assert(sync_views(sorted@.insert(pos as int, b)) =~= views.insert(pos as int, b@));
            assert forall|i: int| 0 <= i < rest@.len() implies sync_views(rest@)[i] == all.skip(
                k + 1,
            )[i] by {
                assert(rest@[i] == rest_before[i + 1]);
                assert(sync_views(rest_before)[i + 1] == all.skip(k)[i + 1]);
            }
            assert(sync_views(rest@) =~= all.skip(k + 1));
            k = k + 1;
        }
        sorted.insert(pos, b);
    }
    proof {
        assert(sync_views(rest@).len() == 0);
        assert(all.take(k) =~= all);
    }
    sorted
}

/// The blocks that the first `n` byte strings of a `Blocks` message stand
/// for; a byte string that is no block is passed over.
pub open spec fn parsed_blocks(raws: Seq<Seq<u8>>, n: nat) -> Seq<SyncBlockView>
    decreases n,
{
    if n == 0 {
        Seq::<SyncBlockView>::empty()
    } else {
        let before = parsed_blocks(raws, (n - 1) as nat);
        match parse_block(raws[n - 1]) {
            Ok(b) => before.push(
                SyncBlockView { block: b, hash: block_hash_of(b), pow_hash: zero_hash() },
            ),
            Err(_) => before,
        }
    }
}

/// The blocks that the store does not hold.
pub open spec fn unknown_to(view: ChainView) -> spec_fn(SyncBlockView) -> bool {
    |b: SyncBlockView| !view.blocks.contains_key(b.hash)
}

/// Whether the parent of a block is at hand: the block is at height 0, or
/// its previous hash is that of a stored block or of a block accepted
/// earlier from the same message.
pub open spec fn parent_at_hand(view: ChainView, accepted: Seq<SyncBlockView>, b: SyncBlockView) -> bool {
    b.block.height() == 0 || view.blocks.contains_key(b.block.previous_hash) || exists|i: int|
        0 <= i < accepted.len() && (#[trigger] accepted[i]).hash == b.block.previous_hash
}

/// The blocks among the first `n` whose parent is at hand, in order.
pub open spec fn linked_blocks(view: ChainView, blocks: Seq<SyncBlockView>, n: nat) -> Seq<
    SyncBlockView,
>
    decreases n,
{
    if n == 0 {
        Seq::<SyncBlockView>::empty()
    } else {
        let before = linked_blocks(view, blocks, (n - 1) as nat);
        if parent_at_hand(view, before, blocks[n - 1]) {
            before.push(blocks[n - 1])
        } else {
            before
        }
    }
}

/// The previous hashes of the blocks among the first `n` whose parent is
/// not at hand, in order.
pub open spec fn orphan_parents(view: ChainView, blocks: Seq<SyncBlockView>, n: nat) -> Seq<Seq<u8>>
    decreases n,
{
    if n == 0 {
        Seq::<Seq<u8>>::empty()
    } else {
        let before = orphan_parents(view, blocks, (n - 1) as nat);
        if parent_at_hand(view, linked_blocks(view, blocks, (n - 1) as nat), blocks[n - 1]) {
            before
        } else {
            before.push(blocks[n - 1].block.previous_hash)
        }
    }
}

/// The new blocks of a `Blocks` message in the order in which they are to
/// be applied: parsed, without those that the store holds, sorted by height.
pub open spec fn new_blocks_in_order(view: ChainView, raws: Seq<Seq<u8>>) -> Seq<SyncBlockView> {
    sorted_by_height(parsed_blocks(raws, raws.len()).filter(unknown_to(view)))
}

/// Blocks that the store holds are not planned again: a `Blocks` message
/// of which every block is stored yields no candidate and no request.
pub proof fn law_stored_blocks_are_dropped(view: ChainView, raws: Seq<Seq<u8>>)
    requires
        forall|i: int|
            0 <= i < raws.len() && parse_block(#[trigger] raws[i]) is Ok
                ==> view.blocks.contains_key(block_hash_of(parse_block(raws[i])->Ok_0)),
    ensures
        new_blocks_in_order(view, raws).len() == 0,
        linked_blocks(view, new_blocks_in_order(view, raws), 0).len() == 0,
        orphan_parents(view, new_blocks_in_order(view, raws), 0).len() == 0,
{
    lemma_parsed_blocks_known(view, raws, raws.len());
    let parsed = parsed_blocks(raws, raws.len());
    let kept = parsed.filter(unknown_to(view));
    assert(kept.len() == 0) by {
        if kept.len() > 0 {
            parsed.lemma_filter_pred(unknown_to(view), 0);
            assert(kept.contains(kept[0]));
            parsed.lemma_filter_contains_rev(unknown_to(view), kept[0]);
            let k = choose|k: int| 0 <= k < parsed.len() && parsed[k] == kept[0];
            assert(view.blocks.contains_key(parsed[k].hash));
        }
    }
    assert(kept =~= Seq::<SyncBlockView>::empty());
}

proof fn lemma_parsed_blocks_known(view: ChainView, raws: Seq<Seq<u8>>, n: nat)
    requires
        n <= raws.len(),
        forall|i: int|
            0 <= i < raws.len() && parse_block(#[trigger] raws[i]) is Ok
                ==> view.blocks.contains_key(block_hash_of(parse_block(raws[i])->Ok_0)),
    ensures
        forall|k: int|
            0 <= k < parsed_blocks(raws, n).len() ==> view.blocks.contains_key(
                (#[trigger] parsed_blocks(raws, n)[k]).hash,
            ),
    decreases n,
{
    if n > 0 {
        lemma_parsed_blocks_known(view, raws, (n - 1) as nat);
        let before = parsed_blocks(raws, (n - 1) as nat);
        assert(parse_block(raws[n - 1]) is Ok ==> view.blocks.contains_key(
            block_hash_of(parse_block(raws[n - 1])->Ok_0),
        ));
    }
}

/// Heights rise strictly along the blocks.
pub open spec fn ascending(blocks: Seq<SyncBlockView>) -> bool {
    forall|i: int, j: int|
        0 <= i < j < blocks.len() ==> (#[trigger] blocks[i]).block.height() < (
        #[trigger] blocks[j]).block.height()
}

proof fn lemma_sorted_of_ascending(blocks: Seq<SyncBlockView>)
    requires
        ascending(blocks),
    ensures
        sorted_by_height(blocks) == blocks,
    decreases blocks.len(),
{
    if blocks.len() > 0 {
        let before = blocks.drop_last();
        assert forall|i: int, j: int| 0 <= i < j < before.len() implies (
        #[trigger] before[i]).block.height() < (#[trigger] before[j]).block.height() by {
            assert(before[i] == blocks[i] && before[j] == blocks[j]);
        }
        lemma_sorted_of_ascending(before);
        if before.len() > 0 {
            assert(before.last() == blocks[blocks.len() - 2]);
            assert(blocks.last() == blocks[blocks.len() - 1]);
        }
        assert(before.push(blocks.last()) =~= blocks);
    } else {
        assert(blocks =~= Seq::<SyncBlockView>::empty());
    }
}

proof fn lemma_sorted_of_reversed(blocks: Seq<SyncBlockView>)
    requires
        ascending(blocks),
    ensures
        sorted_by_height(blocks.reverse()) == blocks,
    decreases blocks.len(),
{
    if blocks.len() > 0 {
        let rest = blocks.skip(1);
        let turned = blocks.reverse();
        assert forall|i: int, j: int| 0 <= i < j < rest.len() implies (
        #[trigger] rest[i]).block.height() < (#[trigger] rest[j]).block.height() by {
            assert(rest[i] == blocks[i + 1] && rest[j] == blocks[j + 1]);
        }
        lemma_sorted_of_reversed(rest);
        assert(turned.drop_last() =~= rest.reverse());
        assert(turned.last() == blocks[0]);
        assert forall|j: int| 0 <= j < rest.len() implies rest[j].block.height()
            > blocks[0].block.height() by {
            assert(rest[j] == blocks[j + 1]);
        }
        lemma_insert_position(rest, blocks[0], 0);
        assert(rest.insert(0, blocks[0]) =~= blocks);
    } else {
        assert(blocks.reverse() =~= Seq::<SyncBlockView>::empty());
        assert(blocks =~= Seq::<SyncBlockView>::empty());
    }
}

proof fn lemma_filter_of_reversed(blocks: Seq<SyncBlockView>, keep: spec_fn(SyncBlockView) -> bool)
    ensures
        blocks.reverse().filter(keep) == blocks.filter(keep).reverse(),
    decreases blocks.len(),
{
    reveal(Seq::filter);
    if blocks.len() > 0 {
        let before = blocks.drop_last();
        let last = blocks.last();
        lemma_filter_of_reversed(before, keep);
        assert(blocks.reverse() =~= seq![last] + before.reverse());
        Seq::filter_distributes_over_add(seq![last], before.reverse(), keep);
        assert(seq![last].last() == last);
        let kept = before.filter(keep);
        let none = seq![last].drop_last();
        assert(none.len() == 0);
        assert(none.filter(keep) =~= Seq::<SyncBlockView>::empty());
        if keep(last) {
            assert(seq![last].filter(keep) =~= seq![last]);
            assert(kept.push(last).reverse() =~= seq![last] + kept.reverse());
        } else {
            assert(seq![last].filter(keep) =~= Seq::<SyncBlockView>::empty());
            assert(Seq::<SyncBlockView>::empty() + kept.reverse() =~= kept.reverse());
        }
    } else {
        assert(blocks.reverse() =~= blocks);
        assert(blocks.filter(keep).reverse() =~= blocks.filter(keep));
    }
}

proof fn lemma_filter_keeps_ascending(
    blocks: Seq<SyncBlockView>,
    keep: spec_fn(SyncBlockView) -> bool,
)
    requires
        ascending(blocks),
    ensures
        ascending(blocks.filter(keep)),
    decreases blocks.len(),
{
    reveal(Seq::filter);
    if blocks.len() > 0 {
        let before = blocks.drop_last();
        let last = blocks.last();
        assert forall|i: int, j: int| 0 <= i < j < before.len() implies (
        #[trigger] before[i]).block.height() < (#[trigger] before[j]).block.height() by {
            assert(before[i] == blocks[i] && before[j] == blocks[j]);
        }
        lemma_filter_keeps_ascending(before, keep);
        let kept = before.filter(keep);
        if keep(last) {
            let all = kept.push(last);
            assert forall|i: int, j: int| 0 <= i < j < all.len() implies (
            #[trigger] all[i]).block.height() < (#[trigger] all[j]).block.height() by {
                assert(all[i] == kept[i]);
                if j < kept.len() {
                    assert(all[j] == kept[j]);
                } else {
                    assert(kept.contains(kept[i]));
                    before.lemma_filter_contains_rev(keep, kept[i]);
                    let k = choose|k: int| 0 <= k < before.len() && before[k] == kept[i];
                    assert(before[k] == blocks[k]);
                    assert(last == blocks[blocks.len() - 1]);
                }
            }
        }
    }
}

/// Sorting restores the order of a chain: of blocks that stand in
/// ascending order of height, those that a filter keeps are sorted into
/// the same sequence whether they come in that order or in the reverse.
pub proof fn law_reversed_feed_sorts_as_ascending(
    blocks: Seq<SyncBlockView>,
    keep: spec_fn(SyncBlockView) -> bool,
)
    requires
        ascending(blocks),
    ensures
        sorted_by_height(blocks.filter(keep)) == blocks.filter(keep),
        sorted_by_height(blocks.reverse().filter(keep)) == blocks.filter(keep),
{
    lemma_filter_keeps_ascending(blocks, keep);
    lemma_filter_of_reversed(blocks, keep);
    lemma_sorted_of_ascending(blocks.filter(keep));
    lemma_sorted_of_reversed(blocks.filter(keep));
}

/// The block that a byte string of a `Blocks` message stands for.
pub open spec fn parsed_block(raw: Seq<u8>) -> SyncBlockView {
    let b = parse_block(raw)->Ok_0;
    SyncBlockView { block: b, hash: block_hash_of(b), pow_hash: zero_hash() }
}

proof fn lemma_parsed_all(raws: Seq<Seq<u8>>, n: nat)
    requires
        n <= raws.len(),
        forall|i: int| 0 <= i < raws.len() ==> parse_block(#[trigger] raws[i]) is Ok,
    ensures
        parsed_blocks(raws, n) == Seq::new(n, |i: int| parsed_block(raws[i])),
    decreases n,
{
    if n > 0 {
        lemma_parsed_all(raws, (n - 1) as nat);
        assert(parse_block(raws[n - 1]) is Ok);
        assert(parsed_blocks(raws, n) =~= Seq::new(n, |i: int| parsed_block(raws[i])));
    } else {
        assert(parsed_blocks(raws, n) =~= Seq::new(n, |i: int| parsed_block(raws[i])));
    }
}

/// Sync does not depend on the order of delivery: a `Blocks` message that
/// holds a chain in descending order of height is planned as the message
/// that holds it in ascending order, block for block; and once the
/// proof-of-work hashes are there, the blocks that pass are applied in the
/// same run.
pub proof fn law_reversed_message_syncs_as_ascending(
    view: ChainView,
    raws: Seq<Seq<u8>>,
    verified: Seq<SyncBlockView>,
    now: u64,
)
    requires
        forall|i: int| 0 <= i < raws.len() ==> parse_block(#[trigger] raws[i]) is Ok,
        forall|i: int, j: int|
            0 <= i < j < raws.len() ==> parsed_block(#[trigger] raws[i]).block.height()
                < parsed_block(#[trigger] raws[j]).block.height(),
        ascending(verified),
    ensures
        new_blocks_in_order(view, raws.reverse()) == new_blocks_in_order(view, raws),
        new_blocks_in_order(view, raws) == parsed_blocks(raws, raws.len()).filter(
            unknown_to(view),
        ),
        sync_run(view, sorted_by_height(verified.reverse().filter(pow_passing())), now)
            == sync_run(view, sorted_by_height(verified.filter(pow_passing())), now),
        sorted_by_height(verified.reverse().filter(pow_passing())) == verified.filter(
            pow_passing(),
        ),
{
    let turned = raws.reverse();
    assert forall|i: int| 0 <= i < turned.len() implies parse_block(#[trigger] turned[i]) is Ok by {
        assert(turned[i] == raws[raws.len() - 1 - i]);
    }
    lemma_parsed_all(raws, raws.len());
    lemma_parsed_all(turned, turned.len());
    let parsed = parsed_blocks(raws, raws.len());
    assert(parsed_blocks(turned, turned.len()) =~= parsed.reverse());
    assert forall|i: int, j: int| 0 <= i < j < parsed.len() implies (
    #[trigger] parsed[i]).block.height() < (#[trigger] parsed[j]).block.height() by {
        assert(parsed[i] == parsed_block(raws[i]) && parsed[j] == parsed_block(raws[j]));
    }
    law_reversed_feed_sorts_as_ascending(parsed, unknown_to(view));
    law_reversed_feed_sorts_as_ascending(verified, pow_passing());
}

/// Sync is idempotent: once a block has been applied, the same block sent
/// again is dropped before anything is verified or applied, so the second
/// delivery changes nothing.
pub proof fn law_resent_block_changes_nothing(
    view: ChainView,
    block: BlockView,
    pending: Option<[u8; 32]>,
    pow_hash: Seq<u8>,
    now: u64,
    raw: Seq<u8>,
)
    requires
        parse_block(raw) == Ok::<BlockView, &'static str>(block),
        block_outcome(view, block, pending, pow_hash, now) is Ok,
    ensures
        ({
            let after = block_outcome(view, block, pending, pow_hash, now)->Ok_0;
            &&& after.blocks.contains_key(block_hash_of(block))
            &&& new_blocks_in_order(after, seq![raw]).len() == 0
            &&& sync_run(after, new_blocks_in_order(after, seq![raw]), now) == (after, 0nat)
        }),
{
    let after = block_outcome(view, block, pending, pow_hash, now)->Ok_0;
    law_stored_blocks_are_dropped(after, seq![raw]);
}

/// What to do with a `Blocks` message before proof-of-work is verified.
#[derive(Debug, Clone)]
pub struct SyncPlan {
    /// The blocks to verify and apply, ascending by height.
    pub candidates: Vec<SyncBlock>,
    /// The parents to ask the peer for.
    pub missing_parents: Vec<[u8; 32]>,
}

/// Plans the sync of a `Blocks` message: malformed and stored blocks are
/// dropped, the others sorted by height, and those whose parent is not at
/// hand set aside with a request for the parent.
pub fn plan_block_sync(state: &ChainState, raws: &Vec<Vec<u8>>) -> (plan: SyncPlan)
    requires
        state.wf(),
    ensures
        ({
            let fresh = new_blocks_in_order(state@, blob_views(raws@));
            &&& sync_views(plan.candidates@) == linked_blocks(state@, fresh, fresh.len())
            &&& hash_views(plan.missing_parents@) == orphan_parents(state@, fresh, fresh.len())
        }),
{
    let ghost views = blob_views(raws@);
    let ghost unknown = unknown_to(state@);
    let mut fresh: Vec<SyncBlock> = Vec::new();
    let mut i: usize = 0;
    assert(sync_views(fresh@) =~= Seq::<SyncBlockView>::empty());
    while i < raws.len()
        invariant
            state.wf(),
            i <= raws@.len(),
            views == blob_views(raws@),
            unknown == unknown_to(state@),
            sync_views(fresh@) == parsed_blocks(views, i as nat).filter(unknown),
        decreases raws@.len() - i,
    {
        match StoredBlock::from_bytes(raws[i].as_slice()) {
            Ok(block) => {
                let hash = block_hash(&block);
                let pow_hash = [0u8; 32];
                assert(pow_hash@ =~= zero_hash());
                let candidate = SyncBlock { block, hash, pow_hash };
                proof {
                    lemma_filter_push(parsed_blocks(views, i as nat), candidate@, unknown);
                }
                if !state.has_block(&candidate.hash) {
                    proof {
                        assert(sync_views(fresh@.push(candidate)) =~= sync_views(fresh@).push(
                            candidate@,
                        ));
                    }
                    fresh.push(candidate);
                }
            },
            Err(_) => {},
        }
        i += 1;
    }
    let sorted = sort_by_height(fresh);
    let ghost order = sync_views(sorted@);
    let mut rest = sorted;
    let mut candidates: Vec<SyncBlock> = Vec::new();
    let mut missing_parents: Vec<[u8; 32]> = Vec::new();
    let ghost mut k: nat = 0;
    proof {
        assert(sync_views(candidates@) =~= Seq::<SyncBlockView>::empty());
        assert(hash_views(missing_parents@) =~= Seq::<Seq<u8>>::empty());
        assert(sync_views(rest@) =~= order.skip(0));
    }
    while rest.len() > 0
        invariant
            state.wf(),
            k <= order.len(),
            sync_views(rest@) == order.skip(k as int),
            sync_views(candidates@) == linked_blocks(state@, order, k),
            hash_views(missing_parents@) == orphan_parents(state@, order, k),
        decreases rest@.len(),
    {
        let ghost rest_before = rest@;
        let b = rest.remove(0);
        proof {
            assert(sync_views(rest_before).len() == rest_before.len());
            assert(order.skip(k as int).len() == order.len() - k);
            assert(k < order.len());
            assert(sync_views(rest_before)[0] == b@);
            assert(order.skip(k as int)[0] == order[k as int]);
            assert forall|i: int| 0 <= i < rest@.len() implies sync_views(rest@)[i] == order.skip(
                k as int + 1,
            )[i] by {
                assert(rest@[i] == rest_before[i + 1]);
                assert(sync_views(rest_before)[i + 1] == order.skip(k as int)[i + 1]);
            }
            assert(sync_views(rest@) =~= order.skip(k as int + 1));
        }
        let mut at_hand = b.block.height() == 0 || state.has_block(&b.block.previous_hash);
        if !at_hand {
            let mut j: usize = 0;
            let mut found = false;
            while j < candidates.len() && !found
                invariant
                    j <= candidates@.len(),
                    found ==> j < candidates@.len() && candidates@[j as int].hash@
                        == b.block.previous_hash@,
                    forall|q: int|
                        0 <= q < j ==> (#[trigger] candidates@[q]).hash@ != b.block.previous_hash@,
                decreases candidates@.len() - j + (if found { 0int } else { 1int }),
            {
                if array_eq(&candidates[j].hash, &b.block.previous_hash) {
                    found = true;
                } else {
                    j += 1;
                }
            }
            at_hand = found;
            proof {
                let accepted = sync_views(candidates@);
                if at_hand {
                    assert(accepted[j as int].hash == b@.block.previous_hash);
                } else {
                    assert forall|q: int| 0 <= q < accepted.len() implies (
                    #[trigger] accepted[q]).hash != b@.block.previous_hash by {
                        assert(accepted[q] == candidates@[q]@);
                    }
                }
            }
        }
        assert(at_hand == parent_at_hand(state@, sync_views(candidates@), b@));
        if at_hand {
            proof {
                assert(sync_views(candidates@.push(b)) =~= sync_views(candidates@).push(b@));
            }
            candidates.push(b);
        } else {
            proof {
                assert(hash_views(missing_parents@.push(b.block.previous_hash)) =~= hash_views(
                    missing_parents@,
                ).push(b@.block.previous_hash));
            }
            missing_parents.push(b.block.previous_hash);
        }
        proof {
            k = k + 1;
        }
    }
    proof {
        assert(sync_views(rest@).len() == 0);
        assert(views.len() == raws@.len());
    }
    SyncPlan { candidates, missing_parents }
}

/// The blocks whose proof-of-work hash meets their target.
pub open spec fn pow_passing() -> spec_fn(SyncBlockView) -> bool {
    |b: SyncBlockView| pow_accepted(b.block, b.pow_hash)
}

/// Blocks applied one after another until one is refused: the store after
/// them, and how many were applied.
pub open spec fn sync_run(view: ChainView, blocks: Seq<SyncBlockView>, now: u64) -> (ChainView, nat)
    decreases blocks.len(),
{
    if blocks.len() == 0 {
        (view, 0nat)
    } else {
        match block_outcome(view, blocks[0].block, None, blocks[0].pow_hash, now) {
            Err(_) => (view, 0nat),
            Ok(next) => {
                let (last, n) = sync_run(next, blocks.skip(1), now);
                (last, n + 1)
            },
        }
    }
}

/// Number of transactions that `sender` sent in the first `n` blocks.
pub open spec fn sent_in_blocks(blocks: Seq<SyncBlockView>, n: nat, sender: Seq<u8>) -> nat
    decreases n,
{
    if n == 0 || blocks.len() == 0 {
        0
    } else {
        count_sent(blocks[0].block.tx_data, sender) + sent_in_blocks(
            blocks.skip(1),
            (n - 1) as nat,
            sender,
        )
    }
}

/// After any run of applied blocks the nonce of an account has advanced by
/// the number of transactions that the account sent in the applied blocks;
/// on a store that started empty it is that number.
pub proof fn law_nonce_is_number_of_applied_outgoing(
    view: ChainView,
    blocks: Seq<SyncBlockView>,
    now: u64,
    addr: Seq<u8>,
)
    ensures
        ({
            let (last, n) = sync_run(view, blocks, now);
            &&& n <= blocks.len()
            &&& account_at(last.accounts, addr).nonce == account_at(view.accounts, addr).nonce
                + sent_in_blocks(blocks, n, addr)
            &&& view == ChainView::empty() ==> account_at(last.accounts, addr).nonce
                == sent_in_blocks(blocks, n, addr)
        }),
    decreases blocks.len(),
{
    if blocks.len() > 0 {
        let first = blocks[0];
        match block_outcome(view, first.block, None, first.pow_hash, now) {
            Err(_) => {},
            Ok(next) => {
                law_nonce_counts_outgoing(view, first.block, None, first.pow_hash, now, addr);
                law_nonce_is_number_of_applied_outgoing(next, blocks.skip(1), now, addr);
            },
        }
    }
}

/// The signals that counted in a run of blocks, in order.
pub open spec fn run_signals(view: ChainView, blocks: Seq<SyncBlockView>, now: u64) -> Seq<Signal>
    decreases blocks.len(),
{
    if blocks.len() == 0 {
        Seq::<Signal>::empty()
    } else {
        match block_outcome(view, blocks[0].block, None, blocks[0].pow_hash, now) {
            Err(_) => Seq::<Signal>::empty(),
            Ok(next) => block_signals(view, blocks[0].block, None) + run_signals(
                next,
                blocks.skip(1),
                now,
            ),
        }
    }
}

proof fn lemma_weights_of_joined(a: Seq<Signal>, b: Seq<Signal>, proposal: Seq<u8>)
    ensures
        weights_on(a + b, proposal) == weights_on(a, proposal) + weights_on(b, proposal),
    decreases b.len(),
{
    if b.len() == 0 {
        assert(a + b =~= a);
        assert(weights_on(a, proposal) + weights_on(b, proposal) =~= weights_on(a, proposal));
    } else {
        lemma_weights_of_joined(a, b.drop_last(), proposal);
        assert((a + b).drop_last() =~= a + b.drop_last());
        assert((a + b).last() == b.last());
        let wa = weights_on(a, proposal);
        let wb = weights_on(b.drop_last(), proposal);
        assert((wa + wb).push(b.last().weight) =~= wa + wb.push(b.last().weight));
    }
}

proof fn lemma_total_of_joined(start: u64, a: Seq<u64>, b: Seq<u64>)
    ensures
        saturating_total(start, a + b) == saturating_total(saturating_total(start, a), b),
    decreases b.len(),
{
    if b.len() == 0 {
        assert(a + b =~= a);
    } else {
        lemma_total_of_joined(start, a, b.drop_last());
        assert((a + b).drop_last() =~= a + b.drop_last());
        assert((a + b).last() == b.last());
    }
}

proof fn lemma_votes_of_joined(a: Seq<Signal>, b: Seq<Signal>)
    ensures
        votes_of(a + b) == votes_of(a) + votes_of(b),
{
    let j = a + b;
    assert forall|k: Seq<u8>| votes_of(j).contains(k) <==> (votes_of(a).contains(k) || votes_of(
        b,
    ).contains(k)) by {
        if votes_of(j).contains(k) {
            let i = choose|i: int|
                0 <= i < j.len() && vote_key((#[trigger] j[i]).proposal@, j[i].voter@) == k;
            if i < a.len() {
                assert(j[i] == a[i]);
            } else {
                assert(j[i] == b[i - a.len()]);
            }
        }
        if votes_of(a).contains(k) {
            let i = choose|i: int|
                0 <= i < a.len() && vote_key((#[trigger] a[i]).proposal@, a[i].voter@) == k;
            assert(j[i] == a[i]);
        }
        if votes_of(b).contains(k) {
            let i = choose|i: int|
                0 <= i < b.len() && vote_key((#[trigger] b[i]).proposal@, b[i].voter@) == k;
            assert(j[i + a.len()] == b[i]);
        }
    }
    assert(votes_of(j) =~= votes_of(a) + votes_of(b));
}

/// The tally of a proposal is the sum of the governance weights of the
/// distinct voters who signalled it: after any run of applied blocks it
/// has grown by the weights of the signals that counted in them, no voter
/// counts twice on a proposal, and the votes recorded are those of the
/// counted signals; on a store that started empty the tally is that sum.
pub proof fn law_tally_is_sum_over_distinct_voters(
    view: ChainView,
    blocks: Seq<SyncBlockView>,
    now: u64,
    proposal: Seq<u8>,
)
    ensures
        ({
            let (last, n) = sync_run(view, blocks, now);
            let signals = run_signals(view, blocks, now);
            &&& tally_at(last.tallies, proposal) == saturating_total(
                tally_at(view.tallies, proposal),
                weights_on(signals, proposal),
            )
            &&& last.votes == view.votes + votes_of(signals)
            &&& fresh_and_distinct(signals, view.votes)
            &&& view == ChainView::empty() ==> tally_at(last.tallies, proposal)
                == saturating_total(0, weights_on(signals, proposal))
        }),
    decreases blocks.len(),
{
    let signals = run_signals(view, blocks, now);
    if blocks.len() == 0 {
        assert(votes_of(signals) =~= Set::<Seq<u8>>::empty());
        assert(view.votes =~= view.votes + votes_of(signals));
    } else {
        let first = blocks[0];
        match block_outcome(view, first.block, None, first.pow_hash, now) {
            Err(_) => {
                assert(votes_of(signals) =~= Set::<Seq<u8>>::empty());
                assert(view.votes =~= view.votes + votes_of(signals));
            },
            Ok(next) => {
                let a = block_signals(view, first.block, None);
                let b = run_signals(next, blocks.skip(1), now);
                law_block_tally_sums_distinct_voters(
                    view,
                    first.block,
                    None,
                    first.pow_hash,
                    now,
                    proposal,
                );
                law_tally_is_sum_over_distinct_voters(next, blocks.skip(1), now, proposal);
                lemma_weights_of_joined(a, b, proposal);
                lemma_total_of_joined(
                    tally_at(view.tallies, proposal),
                    weights_on(a, proposal),
                    weights_on(b, proposal),
                );
                lemma_votes_of_joined(a, b);
                let last = sync_run(view, blocks, now).0;
                assert(last.votes =~= view.votes + votes_of(signals));
                assert forall|i: int| 0 <= i < signals.len() implies !view.votes.contains(
                    vote_key((#[trigger] signals[i]).proposal@, signals[i].voter@),
                ) by {
                    if i < a.len() {
                        assert(signals[i] == a[i]);
                    } else {
                        assert(signals[i] == b[i - a.len()]);
                    }
                }
                assert forall|i: int, j: int|
                    0 <= i < j < signals.len() && (#[trigger] signals[i]).proposal == (
                    #[trigger] signals[j]).proposal implies signals[i].voter
                    != signals[j].voter by {
                    if j < a.len() {
                        assert(signals[i] == a[i] && signals[j] == a[j]);
                    } else if i >= a.len() {
                        assert(signals[i] == b[i - a.len()] && signals[j] == b[j - a.len()]);
                    } else {
                        assert(signals[i] == a[i] && signals[j] == b[j - a.len()]);
                        if signals[i].voter == signals[j].voter {
                            assert(votes_of(a).contains(vote_key(a[i].proposal@, a[i].voter@)));
                        }
                    }
                }
                if view == ChainView::empty() {
                    assert(tally_at(view.tallies, proposal) == 0);
                }
            },
        }
    }
}

proof fn lemma_filter_keeps_all(blocks: Seq<SyncBlockView>, keep: spec_fn(SyncBlockView) -> bool)
    requires
        forall|i: int| 0 <= i < blocks.len() ==> keep(#[trigger] blocks[i]),
    ensures
        blocks.filter(keep) == blocks,
    decreases blocks.len(),
{
    reveal(Seq::filter);
    if blocks.len() > 0 {
        let before = blocks.drop_last();
        assert forall|i: int| 0 <= i < before.len() implies keep(#[trigger] before[i]) by {
            assert(before[i] == blocks[i]);
        }
        lemma_filter_keeps_all(before, keep);
        assert(keep(blocks[blocks.len() - 1]));
        assert(before.push(blocks.last()) =~= blocks);
    }
}

/// A chain fed in reverse ends as the chain fed in order: where blocks in
/// ascending order of height all pass their proof of work and are all
/// applied, the same blocks delivered in descending order leave every one
/// of them indexed at its height and the highest as the tip.
pub proof fn law_reversed_chain_is_indexed(view: ChainView, chain: Seq<SyncBlockView>, now: u64)
    requires
        ascending(chain),
        forall|i: int| 0 <= i < chain.len() ==> pow_accepted(
            (#[trigger] chain[i]).block,
            chain[i].pow_hash,
        ),
        forall|i: int| 0 <= i < chain.len() ==> (#[trigger] chain[i]).block.block_height.len() == 4,
        sync_run(view, chain, now).1 == chain.len(),
    ensures
        ({
            let fed = sorted_by_height(chain.reverse().filter(pow_passing()));
            let after = sync_run(view, fed, now).0;
            &&& fed == chain
            &&& forall|i: int|
                0 <= i < chain.len() ==> after.hash_at_height((#[trigger] chain[i]).block.height())
                    == Some(array32(block_hash_of(chain[i].block)))
            &&& chain.len() > 0 ==> after.tip == Some(array32(block_hash_of(chain.last().block)))
        }),
{
    law_reversed_feed_sorts_as_ascending(chain, pow_passing());
    lemma_filter_keeps_all(chain, pow_passing());
    law_applied_chain_is_indexed(view, chain, now);
}

proof fn lemma_run_keeps_other_heights(
    view: ChainView,
    blocks: Seq<SyncBlockView>,
    now: u64,
    height: u32,
)
    requires
        forall|i: int| 0 <= i < blocks.len() ==> (#[trigger] blocks[i]).block.block_height.len() == 4,
        forall|i: int| 0 <= i < blocks.len() ==> (#[trigger] blocks[i]).block.height() != height,
    ensures
        sync_run(view, blocks, now).0.hash_at_height(height) == view.hash_at_height(height),
    decreases blocks.len(),
{
    if blocks.len() > 0 {
        let first = blocks[0];
        match block_outcome(view, first.block, None, first.pow_hash, now) {
            Err(_) => {},
            Ok(next) => {
                law_applied_block_is_tip_and_indexed(view, first.block, None, first.pow_hash, now);
                let rest = blocks.skip(1);
                assert forall|i: int| 0 <= i < rest.len() implies (
                #[trigger] rest[i]).block.block_height.len() == 4 && rest[i].block.height()
                    != height by {
                    assert(rest[i] == blocks[i + 1]);
                }
                lemma_run_keeps_other_heights(next, rest, now, height);
            },
        }
    }
}

/// After a run of blocks of different heights that were all applied, every
/// one of them is indexed at its height, and the last one is the tip.
pub proof fn law_applied_chain_is_indexed(view: ChainView, blocks: Seq<SyncBlockView>, now: u64)
    requires
        sync_run(view, blocks, now).1 == blocks.len(),
        forall|i: int| 0 <= i < blocks.len() ==> (#[trigger] blocks[i]).block.block_height.len() == 4,
        forall|i: int, j: int|
            0 <= i < j < blocks.len() ==> (#[trigger] blocks[i]).block.height() != (
            #[trigger] blocks[j]).block.height(),
    ensures
        forall|i: int|
            0 <= i < blocks.len() ==> sync_run(view, blocks, now).0.hash_at_height(
                (#[trigger] blocks[i]).block.height(),
            ) == Some(array32(block_hash_of(blocks[i].block))),
        blocks.len() > 0 ==> sync_run(view, blocks, now).0.tip == Some(
            array32(block_hash_of(blocks.last().block)),
        ),
    decreases blocks.len(),
{
    if blocks.len() > 0 {
        let first = blocks[0];
        let rest = blocks.skip(1);
        match block_outcome(view, first.block, None, first.pow_hash, now) {
            Err(_) => {},
            Ok(next) => {
                law_applied_block_is_tip_and_indexed(view, first.block, None, first.pow_hash, now);
                assert forall|i: int| 0 <= i < rest.len() implies (
                #[trigger] rest[i]).block.block_height.len() == 4 && rest[i].block.height()
                    != first.block.height() by {
                    assert(rest[i] == blocks[i + 1]);
                }
                assert forall|i: int, j: int| 0 <= i < j < rest.len() implies (
                #[trigger] rest[i]).block.height() != (#[trigger] rest[j]).block.height() by {
                    assert(rest[i] == blocks[i + 1]);
                    assert(rest[j] == blocks[j + 1]);
                }
                law_applied_chain_is_indexed(next, rest, now);
                lemma_run_keeps_other_heights(next, rest, now, first.block.height());
                let last = sync_run(view, blocks, now).0;
                assert(last == sync_run(next, rest, now).0);
                assert forall|i: int| 0 <= i < blocks.len() implies last.hash_at_height(
                    (#[trigger] blocks[i]).block.height(),
                ) == Some(array32(block_hash_of(blocks[i].block))) by {
                    if i > 0 {
                        assert(rest[i - 1] == blocks[i]);
                    }
                }
                if rest.len() > 0 {
                    assert(rest.last() == blocks.last());
                }
            },
        }
    }
}

/// How the sync of verified blocks went.
pub struct SyncOutcome {
    /// Number of blocks applied.
    pub applied: usize,
    /// Whether a block was refused, which ended the run.
    pub failed: bool,
    /// The request for further headers, after a full batch of 50.
    pub follow_up: Option<NetworkMessage>,
    /// The writes of the applied blocks, in the order of application.
    pub commits: Vec<crate::node::store::BlockCommit>,
}

/// Applies blocks whose proof-of-work hash has been computed: those that
/// miss their target are dropped, the others sorted by height and applied
/// in that order until one is refused. After 50 applied blocks the next
/// headers are asked for from the new tip.
pub fn apply_synced_blocks(state: &mut ChainState, verified: Vec<SyncBlock>, now: u64) -> (out:
    SyncOutcome)
    requires
        old(state).wf(),
    ensures
        final(state).wf(),
        ({
            let run = sorted_by_height(sync_views(verified@).filter(pow_passing()));
            let (last, n) = sync_run(old(state)@, run, now);
            &&& final(state)@ == last
            &&& out.applied == n
            &&& out.failed == (n < run.len())
            &&& out.commits@.len() == n
            &&& forall|i: int|
                0 <= i < n ==> (#[trigger] out.commits@[i]).wf() && out.commits@[i].hash@
                    == block_hash_of(run[i].block) && out.commits@[i].block@ == run[i].block
            &&& match out.follow_up {
                Some(m) => n >= 50 && m@ == (MessageView::GetHeaders { from_hash: sync_start(last) }),
                None => n < 50,
            }
        }),
{
    let ghost all = sync_views(verified@);
    let ghost keep = pow_passing();
    let mut rest = verified;
    let mut passing: Vec<SyncBlock> = Vec::new();
    let ghost mut k: int = 0;
    proof {
        assert(sync_views(passing@) =~= Seq::<SyncBlockView>::empty());
        assert(all.take(0) =~= Seq::<SyncBlockView>::empty());
        assert(sync_views(rest@) =~= all.skip(0));
    }
    while rest.len() > 0
        invariant
            0 <= k <= all.len(),
            keep == pow_passing(),
            sync_views(rest@) == all.skip(k),
            sync_views(passing@) == all.take(k).filter(keep),
        decreases rest@.len(),
    {
        let ghost rest_before = rest@;
        let b = rest.remove(0);
        proof {
            assert(sync_views(rest_before).len() == rest_before.len());
            assert(all.skip(k).len() == all.len() - k);
            assert(k < all.len());
            assert(sync_views(rest_before)[0] == b@);
            assert(all.skip(k)[0] == all[k]);
            assert forall|i: int| 0 <= i < rest@.len() implies sync_views(rest@)[i] == all.skip(
                k + 1,
            )[i] by {
                assert(rest@[i] == rest_before[i + 1]);
                assert(sync_views(rest_before)[i + 1] == all.skip(k)[i + 1]);
            }
            assert(sync_views(rest@) =~= all.skip(k + 1));
            assert(all.take(k + 1) =~= all.take(k).push(b@));
            lemma_filter_push(all.take(k), b@, keep);
        }
        match verify_block_pow(&b.block, &b.pow_hash) {
            Ok(_) => {
                proof {
                    assert(sync_views(passing@.push(b)) =~= sync_views(passing@).push(b@));
                }
                passing.push(b);
            },
            Err(_) => {},
        }
        proof {
            k = k + 1;
        }
    }
    proof {
        assert(sync_views(rest@).len() == 0);
        assert(all.take(k) =~= all);
    }
    let sorted = sort_by_height(passing);
    let ghost run = sync_views(sorted@);
    let total = sorted.len();
    let mut applied: usize = 0;
    let mut failed = false;
    let mut commits: Vec<crate::node::store::BlockCommit> = Vec::new();
    proof {
        assert(run.skip(0) =~= run);
    }
    while applied < total && !failed
        invariant
            state.wf(),
            applied <= total,
            commits@.len() == applied,
            forall|i: int|
                0 <= i < applied ==> (#[trigger] commits@[i]).wf() && commits@[i].hash@
                    == block_hash_of(run[i].block) && commits@[i].block@ == run[i].block,
            total == sorted@.len(),
            run == sync_views(sorted@),
            !failed ==> sync_run(old(state)@, run, now) == ({
                let (last, n) = sync_run(state@, run.skip(applied as int), now);
                (last, (n + applied) as nat)
            }),
            failed ==> applied < total && sync_run(old(state)@, run, now) == (state@, applied as nat),
        decreases total - applied + (if failed { 0int } else { 1int }),
    {
        let b = &sorted[applied];
        proof {
            assert(run.skip(applied as int)[0] == b@);
            assert(run.skip(applied as int).skip(1) =~= run.skip(applied + 1));
        }
        match build_block_commit(state, &b.block, None, &b.pow_hash, now) {
            Ok(commit) => {
                state.apply_batch(&commit);
                commits.push(commit);
                applied += 1;
            },
            Err(_) => {
                failed = true;
            },
        }
    }
    let follow_up = if applied >= MAX_BLOCKS_PER_MSG {
        Some(request_headers(state))
    } else {
        None
    };
    SyncOutcome { applied, failed, follow_up, commits }
}


/// The family of an address on the wire: 4 or 6.
pub open spec fn addr_family(a: PeerAddr) -> int {
    match a {
        PeerAddr::V4 { ip, port } => 4,
        PeerAddr::V6 { ip, port } => 6,
    }
}

/// The ip of an address as a number.
pub open spec fn addr_ip(a: PeerAddr) -> nat {
    match a {
        PeerAddr::V4 { ip, port } => be_value(ip@),
        PeerAddr::V6 { ip, port } => be_value(ip@),
    }
}

/// The port of an address.
pub open spec fn addr_port(a: PeerAddr) -> int {
    match a {
        PeerAddr::V4 { ip, port } => port as int,
        PeerAddr::V6 { ip, port } => port as int,
    }
}

/// `a` does not come behind `b`: IPv4 before IPv6, then by ip, then by port.
pub open spec fn addr_not_behind(a: PeerAddr, b: PeerAddr) -> bool {
    addr_family(a) < addr_family(b) || (addr_family(a) == addr_family(b) && (addr_ip(a) < addr_ip(
        b,
    ) || (addr_ip(a) == addr_ip(b) && addr_port(a) <= addr_port(b))))
}

/// The order in which addresses are passed on.
pub open spec fn addr_order() -> spec_fn(PeerAddr, PeerAddr) -> bool {
    |a: PeerAddr, b: PeerAddr| addr_not_behind(a, b)
}

proof fn lemma_addr_order_total()
    ensures
        total_ordering(addr_order()),
{
    assert forall|a: PeerAddr, b: PeerAddr|
        #[trigger] (addr_order())(a, b) && #[trigger] (addr_order())(b, a) implies a == b by {
        match (a, b) {
            (PeerAddr::V4 { ip: x, port: p }, PeerAddr::V4 { ip: y, port: q }) => {
                lemma_be_value_injective(x@, y@);
                assert(x =~= y);
            },
            (PeerAddr::V6 { ip: x, port: p }, PeerAddr::V6 { ip: y, port: q }) => {
                lemma_be_value_injective(x@, y@);
                assert(x =~= y);
            },
            _ => {},
        }
    }
}

/// Whether `a` does not come behind `b`.
fn addr_le(a: &PeerAddr, b: &PeerAddr) -> (r: bool)
    ensures
        r == addr_not_behind(*a, *b),
{
    match (a, b) {
        (PeerAddr::V4 { ip: x, port: p }, PeerAddr::V4 { ip: y, port: q }) => {
            proof {
                if be_value(x@) == be_value(y@) {
                    lemma_be_value_injective(x@, y@);
                }
            }
            !be_le(y, x) || (array_eq(x, y) && *p <= *q)
        },
        (PeerAddr::V6 { ip: x, port: p }, PeerAddr::V6 { ip: y, port: q }) => {
            proof {
                if be_value(x@) == be_value(y@) {
                    lemma_be_value_injective(x@, y@);
                }
            }
            !be_le(y, x) || (array_eq(x, y) && *p <= *q)
        },
        (PeerAddr::V4 { .. }, PeerAddr::V6 { .. }) => true,
        (PeerAddr::V6 { .. }, PeerAddr::V4 { .. }) => false,
    }
}

/// The addresses that are passed on after they were learned: sorted, and
/// the first 64 of them.
pub open spec fn gossip_of(newly: Seq<PeerAddr>) -> Seq<PeerAddr> {
    let sorted = newly.sort_by(addr_order());
    if sorted.len() <= 64 {
        sorted
    } else {
        sorted.take(64)
    }
}

/// Sorts newly learned addresses and keeps the first 64.
pub fn gossip_list(newly: &Vec<PeerAddr>) -> (out: Vec<PeerAddr>)
    ensures
        out@ == gossip_of(newly@),
{
    broadcast use vstd::seq_lib::group_to_multiset_ensures;

    let mut sorted: Vec<PeerAddr> = Vec::new();
    let mut k: usize = 0;
    assert(newly@.take(0) =~= Seq::<PeerAddr>::empty());
    while k < newly.len()
        invariant
            k <= newly@.len(),
            sorted@.len() == k,
            sorted_by(sorted@, addr_order()),
            sorted@.to_multiset() == newly@.take(k as int).to_multiset(),
        decreases newly@.len() - k,
    {
        let x = newly[k];
        let mut pos: usize = 0;
        while pos < sorted.len() && addr_le(&sorted[pos], &x)
            invariant
                pos <= sorted@.len(),
                forall|j: int| 0 <= j < pos ==> addr_not_behind(#[trigger] sorted@[j], x),
            decreases sorted@.len() - pos,
        {
            pos += 1;
        }
        let ghost before = sorted@;
        sorted.insert(pos, x);
        proof {
            assert(sorted@ == before.insert(pos as int, x));
            assert(newly@.take(k + 1) =~= newly@.take(k as int).push(x));
            vstd::seq_lib::to_multiset_insert(before, pos as int, x);
            vstd::seq_lib::to_multiset_build(newly@.take(k as int), x);
            assert(sorted@.to_multiset() =~= newly@.take(k + 1).to_multiset());
            assert forall|i: int, j: int| 0 <= i < j < sorted@.len() implies (addr_order())(
                sorted@[i],
                sorted@[j],
            ) by {
                if j < pos {
                    assert((addr_order())(before[i], before[j]));
                } else if j == pos {
                    assert(addr_not_behind(before[i], x));
                } else if i < pos {
                    assert((addr_order())(before[i], before[j - 1]));
                } else if i == pos {
                    assert(pos < before.len());
                    assert(!addr_not_behind(before[pos as int], x));
                    if j - 1 > pos {
                        assert((addr_order())(before[pos as int], before[j - 1]));
                    }
                } else {
                    assert((addr_order())(before[i - 1], before[j - 1]));
                }
            }
        }
        k += 1;
    }
    proof {
        assert(newly@.take(k as int) =~= newly@);
        lemma_addr_order_total();
        newly@.lemma_sort_by_ensures(addr_order());
        vstd::seq_lib::lemma_sorted_unique(sorted@, newly@.sort_by(addr_order()), addr_order());
    }
    if sorted.len() > MAX_ADDRS_PER_GOSSIP {
        sorted.truncate(MAX_ADDRS_PER_GOSSIP);
    }
    sorted
}

/// The addresses not among `connected`.
pub open spec fn not_among(connected: Seq<PeerAddr>) -> spec_fn(PeerAddr) -> bool {
    |a: PeerAddr| !connected.contains(a)
}

/// The peers that the dialler tries next: the first two known addresses
/// that are not connected.
pub open spec fn next_dials(known: Seq<PeerAddr>, connected: Seq<PeerAddr>) -> Seq<PeerAddr> {
    let free = known.filter(not_among(connected));
    if free.len() <= 2 {
        free
    } else {
        free.take(2)
    }
}

/// Picks up to two known peers that are not connected.
pub fn dial_candidates(known: &Vec<PeerAddr>, connected: &Vec<PeerAddr>) -> (out: Vec<PeerAddr>)
    ensures
        out@ == next_dials(known@, connected@),
{
    let ghost keep = not_among(connected@);
    let mut out: Vec<PeerAddr> = Vec::new();
    let mut i: usize = 0;
    assert(known@.take(0) =~= Seq::<PeerAddr>::empty());
    while i < known.len() && out.len() < 2
        invariant
            i <= known@.len(),
            keep == not_among(connected@),
            out@.len() <= 2,
            out@ == known@.take(i as int).filter(keep),
        decreases known@.len() - i,
    {
        proof {
            assert(known@.take(i + 1) =~= known@.take(i as int).push(known@[i as int]));
            lemma_filter_push(known@.take(i as int), known@[i as int], keep);
        }
        if find_addr(connected, &known[i]).is_none() {
            out.push(known[i]);
        }
        i += 1;
    }
    proof {
        let free = known@.filter(keep);
        lemma_filter_prefix(known@, i as int, keep);
        if out@.len() < 2 {
            assert(known@.take(i as int) =~= known@);
        } else {
            assert(free.take(2) == out@);
            if free.len() <= 2 {
                assert(free.take(2) =~= free);
            }
        }
    }
    out
}

/// What the node does in answer to a message.
#[derive(Debug, Clone)]
pub enum NodeAction {
    /// Send the message to the peer.
    Send(NetworkMessage),
    /// Pass the message on to every peer.
    Broadcast(NetworkMessage),
    /// Write the known addresses to disk.
    SaveKnownPeers,
    /// Have the proof-of-work hashes of the blocks computed, then apply them.
    VerifyBlocks(Vec<SyncBlock>),
}

/// The mathematical value of an action.
pub ghost enum ActionView {
    Send(MessageView),
    Broadcast(MessageView),
    SaveKnownPeers,
    VerifyBlocks(Seq<SyncBlockView>),
}

impl View for NodeAction {
    type V = ActionView;

    open spec fn view(&self) -> ActionView {
        match self {
            NodeAction::Send(m) => ActionView::Send(m@),
            NodeAction::Broadcast(m) => ActionView::Broadcast(m@),
            NodeAction::SaveKnownPeers => ActionView::SaveKnownPeers,
            NodeAction::VerifyBlocks(blocks) => ActionView::VerifyBlocks(sync_views(blocks@)),
        }
    }
}

/// The values of a run of actions.
pub open spec fn action_views(actions: Seq<NodeAction>) -> Seq<ActionView> {
    Seq::new(actions.len(), |i: int| actions[i]@)
}

/// Each message as an action that sends it.
pub open spec fn sends(msgs: Seq<MessageView>) -> Seq<ActionView> {
    Seq::new(msgs.len(), |i: int| ActionView::Send(msgs[i]))
}

/// Every message as an action that sends it.
fn as_sends(messages: Vec<NetworkMessage>) -> (actions: Vec<NodeAction>)
    ensures
        action_views(actions@) == sends(message_views(messages@)),
{
    let ghost msgs = message_views(messages@);
    let mut out = messages;
    let mut actions: Vec<NodeAction> = Vec::new();
    let ghost mut k: int = 0;
    proof {
        assert(message_views(out@) =~= msgs.skip(0));
        assert(sends(msgs.take(0)) =~= Seq::<ActionView>::empty());
        assert(action_views(actions@) =~= Seq::<ActionView>::empty());
    }
    while out.len() > 0
        invariant
            0 <= k <= msgs.len(),
            message_views(out@) == msgs.skip(k),
            action_views(actions@) == sends(msgs.take(k)),
        decreases out@.len(),
    {
        let ghost before = out@;
        let m = out.remove(0);
        proof {
            assert(message_views(before).len() == before.len());
            assert(msgs.skip(k).len() == msgs.len() - k);
            assert(message_views(before)[0] == m@);
            assert(msgs.skip(k)[0] == msgs[k]);
            assert forall|i: int| 0 <= i < out@.len() implies message_views(out@)[i] == msgs.skip(
                k + 1,
            )[i] by {
                assert(out@[i] == before[i + 1]);
                assert(message_views(before)[i + 1] == msgs.skip(k)[i + 1]);
            }
            assert(message_views(out@) =~= msgs.skip(k + 1));
            let grown = actions@.push(NodeAction::Send(m));
            assert(action_views(actions@).len() == actions@.len());
            assert(sends(msgs.take(k)).len() == k);
            assert forall|j: int| 0 <= j < k + 1 implies action_views(grown)[j] == sends(
                msgs.take(k + 1),
            )[j] by {
                if j < k {
                    assert(grown[j] == actions@[j]);
                    assert(action_views(actions@)[j] == sends(msgs.take(k))[j]);
                } else {
                    assert(grown[j]@ == ActionView::Send(m@));
                }
            }
            assert(action_views(grown) =~= sends(msgs.take(k + 1)));
            k = k + 1;
        }
        actions.push(NodeAction::Send(m));
    }
    proof {
        assert(message_views(out@).len() == 0);
        assert(msgs.take(k) =~= msgs);
    }
    actions
}

/// A request for each missing parent.
pub open spec fn parent_requests(parents: Seq<Seq<u8>>) -> Seq<ActionView> {
    Seq::new(
        parents.len(),
        |i: int| ActionView::Send(MessageView::GetBlocks { hashes: seq![parents[i]] }),
    )
}

/// The pool after a peer has sent the bytes of a transaction.
pub open spec fn pool_after_tx(pool: Seq<TxView>, raw: Seq<u8>) -> Seq<TxView> {
    match parse_tx(raw) {
        Ok((t, n)) => match admission(pool, t) {
            Ok(next) => next,
            Err(_) => pool,
        },
        Err(_) => pool,
    }
}

/// Whether a peer's transaction is admitted to the pool.
pub open spec fn tx_admitted(pool: Seq<TxView>, raw: Seq<u8>) -> bool {
    match parse_tx(raw) {
        Ok((t, n)) => admission(pool, t) is Ok,
        Err(_) => false,
    }
}

/// The pool after a message of a peer.
pub open spec fn pool_after(msg: MessageView, pool: Seq<TxView>) -> Seq<TxView> {
    match msg {
        MessageView::Tx(raw) => pool_after_tx(pool, raw),
        _ => pool,
    }
}

/// The known addresses after a message of a peer.
pub open spec fn known_after_msg(
    msg: MessageView,
    known: Seq<PeerAddr>,
    peer: PeerAddr,
    allow_local: bool,
) -> Seq<PeerAddr> {
    match msg {
        MessageView::Addr(addrs) => known_after(known, addrs, peer, allow_local, addrs.len()),
        _ => known,
    }
}

/// The actions in answer to a message of a peer whose handshake is done.
pub open spec fn reaction(
    msg: MessageView,
    peer: PeerAddr,
    view: ChainView,
    pool: Seq<TxView>,
    known: Seq<PeerAddr>,
    allow_local: bool,
) -> Seq<ActionView> {
    match msg {
        MessageView::Ping(n) => seq![ActionView::Send(MessageView::Pong(n))],
        MessageView::GetHeaders { from_hash } => if headers_to_send(view, from_hash).len() == 0 {
            Seq::<ActionView>::empty()
        } else {
            seq![ActionView::Send(MessageView::Headers(headers_to_send(view, from_hash)))]
        },
        MessageView::Headers(hashes) => sends(headers_answer(view, hashes)),
        MessageView::GetBlocks { hashes } => if stored_block_bytes(view, hashes, hashes.len()).len()
            == 0 {
            Seq::<ActionView>::empty()
        } else {
            seq![
                ActionView::Send(
                    MessageView::Blocks(stored_block_bytes(view, hashes, hashes.len())),
                ),
            ]
        },
        MessageView::Blocks(raws) => {
            let fresh = new_blocks_in_order(view, raws);
            let requests = parent_requests(orphan_parents(view, fresh, fresh.len()));
            let candidates = linked_blocks(view, fresh, fresh.len());
            if candidates.len() == 0 {
                requests
            } else {
                requests.push(ActionView::VerifyBlocks(candidates))
            }
        },
        MessageView::Tx(raw) => if tx_admitted(pool, raw) {
            seq![ActionView::Broadcast(MessageView::Tx(raw))]
        } else {
            Seq::<ActionView>::empty()
        },
        MessageView::Addr(addrs) => {
            let after = known_after(known, addrs, peer, allow_local, addrs.len());
            if after.len() == known.len() {
                Seq::<ActionView>::empty()
            } else {
                seq![
                    ActionView::SaveKnownPeers,
                    ActionView::Broadcast(
                        MessageView::Addr(gossip_of(after.subrange(known.len() as int, after.len() as int))),
                    ),
                ]
            }
        },
        MessageView::GetAddr => if addrs_for_peer(known, peer, 64).len() == 0 {
            Seq::<ActionView>::empty()
        } else {
            seq![ActionView::Send(MessageView::Addr(addrs_for_peer(known, peer, 64)))]
        },
        _ => Seq::<ActionView>::empty(),
    }
}

/// Takes a message of a peer whose handshake is done, and says what the
/// node does in answer.
pub fn handle_msg(
    msg: NetworkMessage,
    peer: &PeerAddr,
    state: &ChainState,
    mempool: &mut Mempool,
    known: &mut Vec<PeerAddr>,
    allow_local: bool,
) -> (actions: Vec<NodeAction>)
    requires
        state.wf(),
        old(mempool).wf(),
    ensures
        final(mempool).wf(),
        final(mempool)@ == pool_after(msg@, old(mempool)@),
        final(known)@ == known_after_msg(msg@, old(known)@, *peer, allow_local),
        action_views(actions@) == reaction(
            msg@,
            *peer,
            state@,
            old(mempool)@,
            old(known)@,
            allow_local,
        ),
{
    let mut actions: Vec<NodeAction> = Vec::new();
    let ghost none = Seq::<ActionView>::empty();
    assert(action_views(actions@) =~= none);
    match msg {
        NetworkMessage::Ping(n) => {
            actions.push(NodeAction::Send(NetworkMessage::Pong(n)));
            assert(action_views(actions@) =~= seq![ActionView::Send(MessageView::Pong(n))]);
        },
        NetworkMessage::GetHeaders { from_hash } => {
            let hashes = headers_after(state, &from_hash);
            if hashes.len() > 0 {
                actions.push(NodeAction::Send(NetworkMessage::Headers(hashes)));
                assert(action_views(actions@) =~= seq![
                    ActionView::Send(MessageView::Headers(headers_to_send(state@, from_hash@))),
                ]);
            }
        },
        NetworkMessage::Headers(hashes) => {
            actions = as_sends(on_headers(state, &hashes));
        },
        NetworkMessage::GetBlocks { hashes } => {
            match on_get_blocks(state, &hashes) {
                Some(m) => {
                    actions.push(NodeAction::Send(m));
                    assert(action_views(actions@) =~= seq![ActionView::Send(m@)]);
                },
                None => {},
            }
        },
        NetworkMessage::Blocks(raws) => {
            let plan = plan_block_sync(state, &raws);
            let SyncPlan { candidates, missing_parents } = plan;
            let ghost parents = hash_views(missing_parents@);
            let mut i: usize = 0;
            assert(parent_requests(parents.take(0)) =~= none);
            while i < missing_parents.len()
                invariant
                    i <= missing_parents@.len(),
                    parents == hash_views(missing_parents@),
                    action_views(actions@) == parent_requests(parents.take(i as int)),
                decreases missing_parents@.len() - i,
            {
                let mut one: Vec<[u8; 32]> = Vec::new();
                one.push(missing_parents[i]);
                let m = NetworkMessage::GetBlocks { hashes: one };
                proof {
                    assert(hash_views(one@) =~= seq![parents[i as int]]);
                    let grown = actions@.push(NodeAction::Send(m));
                    assert(action_views(actions@).len() == actions@.len());
                    assert(parent_requests(parents.take(i as int)).len() == i);
                    assert forall|j: int| 0 <= j < i + 1 implies action_views(grown)[j]
                        == parent_requests(parents.take(i + 1))[j] by {
                        if j < i {
                            assert(grown[j] == actions@[j]);
                            assert(action_views(actions@)[j] == parent_requests(
                                parents.take(i as int),
                            )[j]);
                        } else {
                            assert(grown[j]@ == ActionView::Send(m@));
                        }
                    }
                    assert(action_views(grown) =~= parent_requests(parents.take(i + 1)));
                }
                actions.push(NodeAction::Send(m));
                i += 1;
            }
            assert(parents.take(i as int) =~= parents);
            if candidates.len() > 0 {
                proof {
                    let a = NodeAction::VerifyBlocks(candidates);
                    assert(action_views(actions@.push(a)) =~= action_views(actions@).push(a@));
                }
                actions.push(NodeAction::VerifyBlocks(candidates));
            }
        },
        NetworkMessage::Tx(raw) => {
            match on_tx(mempool, raw) {
                Some(m) => {
                    actions.push(NodeAction::Broadcast(m));
                    assert(action_views(actions@) =~= seq![ActionView::Broadcast(m@)]);
                },
                None => {},
            }
        },
        NetworkMessage::Addr(addrs) => {
            let newly = learn_addresses(known, &addrs, peer, allow_local);
            if newly.len() > 0 {
                let list = gossip_list(&newly);
                assert(known@.subrange(old(known)@.len() as int, known@.len() as int) =~= newly@);
                actions.push(NodeAction::SaveKnownPeers);
                actions.push(NodeAction::Broadcast(NetworkMessage::Addr(list)));
                assert(action_views(actions@) =~= seq![
                    ActionView::SaveKnownPeers,
                    ActionView::Broadcast(MessageView::Addr(gossip_of(newly@))),
                ]);
            }
        },
        NetworkMessage::GetAddr => {
            match on_get_addr(known, peer) {
                Some(m) => {
                    actions.push(NodeAction::Send(m));
                    assert(action_views(actions@) =~= seq![ActionView::Send(m@)]);
                },
                None => {},
            }
        },
        _ => {},
    }
    actions
}


/// What a connection does on a message of its peer: the actions, or the
/// reason why the peer is closed.
///
/// Until the handshake is done the message is a handshake message, and
/// the peer is closed once the deadline has passed or its response does
/// not answer the challenge; when the handshake ends the node sends its
/// greeting. Afterwards every message goes to the node.
pub open spec fn connection_reaction(
    info: PeerInfo,
    msg: MessageView,
    peer: PeerAddr,
    view: ChainView,
    pool: Seq<TxView>,
    known: Seq<PeerAddr>,
    allow_local: bool,
    fresh: [u8; 32],
    opened: u64,
    now: u64,
) -> Result<Seq<ActionView>, &'static str> {
    if info.handshake_stage == HandshakeStage::Done {
        Ok(reaction(msg, peer, view, pool, known, allow_local))
    } else if handshake_timed_out(info.handshake_stage, opened, now) {
        Err("handshake timeout")
    } else {
        match handshake_answer(info, msg, fresh) {
            ReplyView::Ignore => Ok(Seq::<ActionView>::empty()),
            ReplyView::Send(m) => Ok(seq![ActionView::Send(m)]),
            ReplyView::Fail => Err("handshake failed"),
            ReplyView::Established => Ok(sends(greeting(view, known, peer))),
        }
    }
}

/// Takes one message of a peer on a connection that opened at `opened`.
/// `fresh` is a new random challenge, `now` the clock in seconds.
pub fn connection_step(
    info: &mut PeerInfo,
    msg: NetworkMessage,
    peer: &PeerAddr,
    state: &ChainState,
    mempool: &mut Mempool,
    known: &mut Vec<PeerAddr>,
    allow_local: bool,
    fresh: &[u8; 32],
    opened: u64,
    now: u64,
) -> (r: Result<Vec<NodeAction>, &'static str>)
    requires
        state.wf(),
        old(mempool).wf(),
    ensures
        final(mempool).wf(),
        match r {
            Ok(actions) => connection_reaction(
                *old(info),
                msg@,
                *peer,
                state@,
                old(mempool)@,
                old(known)@,
                allow_local,
                *fresh,
                opened,
                now,
            ) == Ok::<Seq<ActionView>, &'static str>(action_views(actions@)),
            Err(e) => connection_reaction(
                *old(info),
                msg@,
                *peer,
                state@,
                old(mempool)@,
                old(known)@,
                allow_local,
                *fresh,
                opened,
                now,
            ) == Err::<Seq<ActionView>, &'static str>(e),
        },
        old(info).handshake_stage == HandshakeStage::Done ==> *final(info) == *old(info)
            && final(mempool)@ == pool_after(msg@, old(mempool)@) && final(known)@
            == known_after_msg(msg@, old(known)@, *peer, allow_local),
        old(info).handshake_stage != HandshakeStage::Done ==> final(mempool)@ == old(mempool)@
            && final(known)@ == old(known)@ && (r is Ok ==> *final(info) == handshake_next(
            *old(info),
            msg@,
            *fresh,
        )),
{
    if info.handshake_stage == HandshakeStage::Done {
        return Ok(handle_msg(msg, peer, state, mempool, known, allow_local));
    }
    if handshake_expired(info.handshake_stage, opened, now) {
        return Err("handshake timeout");
    }
    let mut actions: Vec<NodeAction> = Vec::new();
    match handshake_step(info, &msg, fresh) {
        HandshakeReply::Ignore => {
            assert(action_views(actions@) =~= Seq::<ActionView>::empty());
            Ok(actions)
        },
        HandshakeReply::Send(m) => {
            actions.push(NodeAction::Send(m));
            assert(action_views(actions@) =~= seq![ActionView::Send(m@)]);
            Ok(actions)
        },
        HandshakeReply::Fail => Err("handshake failed"),
        HandshakeReply::Established => {
            actions = as_sends(post_handshake_messages(state, known, peer));
            Ok(actions)
        },
    }
}

} // verus!
