use vstd::prelude::*;
use vstd::bytes::{spec_u32_to_le_bytes, spec_u64_to_le_bytes};
use crate::bytes::{copy_bytes, get_u32, get_u64, le32, le64, put_bytes, put_u32, put_u64, read_array};
use crate::node::db_common::{length_field, StoredBlock};
use crate::primitives::block::hash_views;

verus! {

/// Largest payload that a peer may send.
pub const MAX_FRAME: usize = 1_048_576;

/// Most hashes in one `Headers` or `GetBlocks` message.
pub const MAX_HASHES_PER_MSG: usize = 2000;

/// Most blocks in one `Blocks` message.
pub const MAX_BLOCKS_IN_MSG: usize = 500;

/// Most addresses in one `Addr` message.
pub const MAX_ADDRS_PER_MSG: usize = 1000;

/// The four bytes `KNOT` that start every frame.
pub open spec fn magic() -> Seq<u8> {
    seq![0x4Bu8, 0x4Eu8, 0x4Fu8, 0x54u8]
}

/// The address of a peer: an IPv4 or IPv6 address and a port.
#[derive(Debug, Clone, Copy, PartialEq, Eq, PartialOrd, Ord, Hash)]
pub enum PeerAddr {
    V4 { ip: [u8; 4], port: u16 },
    V6 { ip: [u8; 16], port: u16 },
}

/// A message of the wire protocol.
#[derive(Debug, Clone)]
pub enum NetworkMessage {
    Version { height: u32 },
    Verack,
    GetHeaders { from_hash: [u8; 32] },
    Headers(Vec<[u8; 32]>),
    GetBlocks { hashes: Vec<[u8; 32]> },
    /// Each element is the serialised form of a block.
    Blocks(Vec<Vec<u8>>),
    Ping(u64),
    Pong(u64),
    Challenge([u8; 32]),
    Response([u8; 32]),
    Addr(Vec<PeerAddr>),
    GetAddr,
    /// The serialised form of a transaction.
    Tx(Vec<u8>),
}

/// The mathematical value of a message.
pub ghost enum MessageView {
    Version { height: u32 },
    Verack,
    GetHeaders { from_hash: Seq<u8> },
    Headers(Seq<Seq<u8>>),
    GetBlocks { hashes: Seq<Seq<u8>> },
    Blocks(Seq<Seq<u8>>),
    Ping(u64),
    Pong(u64),
    Challenge(Seq<u8>),
    Response(Seq<u8>),
    Addr(Seq<PeerAddr>),
    GetAddr,
    Tx(Seq<u8>),
}

/// The values of a run of byte strings.
pub open spec fn blob_views(blobs: Seq<Vec<u8>>) -> Seq<Seq<u8>> {
    Seq::new(blobs.len(), |i: int| blobs[i]@)
}

impl View for NetworkMessage {
    type V = MessageView;

    open spec fn view(&self) -> MessageView {
        match self {
            NetworkMessage::Version { height } => MessageView::Version { height: *height },
            NetworkMessage::Verack => MessageView::Verack,
            NetworkMessage::GetHeaders { from_hash } => MessageView::GetHeaders {
                from_hash: from_hash@,
            },
            NetworkMessage::Headers(hashes) => MessageView::Headers(hash_views(hashes@)),
            NetworkMessage::GetBlocks { hashes } => MessageView::GetBlocks {
                hashes: hash_views(hashes@),
            },
            NetworkMessage::Blocks(blocks) => MessageView::Blocks(blob_views(blocks@)),
            NetworkMessage::Ping(n) => MessageView::Ping(*n),
            NetworkMessage::Pong(n) => MessageView::Pong(*n),
            NetworkMessage::Challenge(c) => MessageView::Challenge(c@),
            NetworkMessage::Response(r) => MessageView::Response(r@),
            NetworkMessage::Addr(addrs) => MessageView::Addr(addrs@),
            NetworkMessage::GetAddr => MessageView::GetAddr,
            NetworkMessage::Tx(raw) => MessageView::Tx(raw@),
        }
    }
}

/// The kinds of message.
#[derive(Debug, Clone, Copy, PartialEq, Eq, Structural)]
pub enum MsgType {
    Version,
    Verack,
    GetHeaders,
    Headers,
    GetBlocks,
    Blocks,
    Ping,
    Pong,
    Challenge,
    Response,
    Addr,
    GetAddr,
    Tx,
}

impl MsgType {
    /// The byte that stands for a kind on the wire.
    pub open spec fn spec_code(self) -> u8 {
        match self {
            MsgType::Version => 0x01,
            MsgType::Verack => 0x02,
            MsgType::GetHeaders => 0x10,
            MsgType::Headers => 0x11,
            MsgType::GetBlocks => 0x12,
            MsgType::Blocks => 0x13,
            MsgType::Ping => 0x20,
            MsgType::Pong => 0x21,
            MsgType::Challenge => 0x30,
            MsgType::Response => 0x31,
            MsgType::Addr => 0x40,
            MsgType::GetAddr => 0x41,
            MsgType::Tx => 0x50,
        }
    }

    /// The kind that a byte stands for.
    pub open spec fn spec_from_u8(v: u8) -> Option<MsgType> {
        if v == 0x01 {
            Some(MsgType::Version)
        } else if v == 0x02 {
            Some(MsgType::Verack)
        } else if v == 0x10 {
            Some(MsgType::GetHeaders)
        } else if v == 0x11 {
            Some(MsgType::Headers)
        } else if v == 0x12 {
            Some(MsgType::GetBlocks)
        } else if v == 0x13 {
            Some(MsgType::Blocks)
        } else if v == 0x20 {
            Some(MsgType::Ping)
        } else if v == 0x21 {
            Some(MsgType::Pong)
        } else if v == 0x30 {
            Some(MsgType::Challenge)
        } else if v == 0x31 {
            Some(MsgType::Response)
        } else if v == 0x40 {
            Some(MsgType::Addr)
        } else if v == 0x41 {
            Some(MsgType::GetAddr)
        } else if v == 0x50 {
            Some(MsgType::Tx)
        } else {
            None
        }
    }

    pub fn code(self) -> (c: u8)
        ensures
            c == self.spec_code(),
            MsgType::spec_from_u8(c) == Some(self),
    {
        match self {
            MsgType::Version => 0x01,
            MsgType::Verack => 0x02,
            MsgType::GetHeaders => 0x10,
            MsgType::Headers => 0x11,
            MsgType::GetBlocks => 0x12,
            MsgType::Blocks => 0x13,
            MsgType::Ping => 0x20,
            MsgType::Pong => 0x21,
            MsgType::Challenge => 0x30,
            MsgType::Response => 0x31,
            MsgType::Addr => 0x40,
            MsgType::GetAddr => 0x41,
            MsgType::Tx => 0x50,
        }
    }

    pub fn from_u8(v: u8) -> (t: Option<MsgType>)
        ensures
            t == MsgType::spec_from_u8(v),
            t.is_some() ==> t.unwrap().spec_code() == v,
    {
        match v {
            0x01 => Some(MsgType::Version),
            0x02 => Some(MsgType::Verack),
            0x10 => Some(MsgType::GetHeaders),
            0x11 => Some(MsgType::Headers),
            0x12 => Some(MsgType::GetBlocks),
            0x13 => Some(MsgType::Blocks),
            0x20 => Some(MsgType::Ping),
            0x21 => Some(MsgType::Pong),
            0x30 => Some(MsgType::Challenge),
            0x31 => Some(MsgType::Response),
            0x40 => Some(MsgType::Addr),
            0x41 => Some(MsgType::GetAddr),
            0x50 => Some(MsgType::Tx),
            _ => None,
        }
    }
}

impl MessageView {
    /// The kind of a message.
    pub open spec fn kind(self) -> MsgType {
        match self {
            MessageView::Version { .. } => MsgType::Version,
            MessageView::Verack => MsgType::Verack,
            MessageView::GetHeaders { .. } => MsgType::GetHeaders,
            MessageView::Headers(_) => MsgType::Headers,
            MessageView::GetBlocks { .. } => MsgType::GetBlocks,
            MessageView::Blocks(_) => MsgType::Blocks,
            MessageView::Ping(_) => MsgType::Ping,
            MessageView::Pong(_) => MsgType::Pong,
            MessageView::Challenge(_) => MsgType::Challenge,
            MessageView::Response(_) => MsgType::Response,
            MessageView::Addr(_) => MsgType::Addr,
            MessageView::GetAddr => MsgType::GetAddr,
            MessageView::Tx(_) => MsgType::Tx,
        }
    }
}

/// The byte strings of `parts` one after another.
pub open spec fn concat_all(parts: Seq<Seq<u8>>) -> Seq<u8>
    decreases parts.len(),
{
    if parts.len() == 0 {
        Seq::<u8>::empty()
    } else {
        concat_all(parts.drop_last()) + parts.last()
    }
}

/// A list of hashes on the wire: count (4, LE) ‖ hashes.
pub open spec fn hashes_bytes(hashes: Seq<Seq<u8>>) -> Seq<u8> {
    spec_u32_to_le_bytes(length_field(hashes.len())) + concat_all(hashes)
}

/// Byte strings on the wire, each behind its length (4, LE).
pub open spec fn framed_all(blobs: Seq<Seq<u8>>) -> Seq<u8>
    decreases blobs.len(),
{
    if blobs.len() == 0 {
        Seq::<u8>::empty()
    } else {
        framed_all(blobs.drop_last()) + spec_u32_to_le_bytes(length_field(blobs.last().len()))
            + blobs.last()
    }
}

/// A port on the wire: two bytes, most significant first.
pub open spec fn port_bytes(port: u16) -> Seq<u8> {
    seq![(port / 256) as u8, (port % 256) as u8]
}

/// The port that two bytes stand for.
pub open spec fn port_of(b: Seq<u8>) -> u16 {
    (b[0] as u16 * 256 + b[1] as u16) as u16
}

/// An address on the wire: family (1) ‖ ip ‖ port (2, BE); family 4 has a
/// four-byte ip, family 6 a 16-byte one.
pub open spec fn addr_bytes(a: PeerAddr) -> Seq<u8> {
    match a {
        PeerAddr::V4 { ip, port } => seq![0x04u8] + ip@ + port_bytes(port),
        PeerAddr::V6 { ip, port } => seq![0x06u8] + ip@ + port_bytes(port),
    }
}

/// Addresses on the wire, one after another.
pub open spec fn addrs_bytes(addrs: Seq<PeerAddr>) -> Seq<u8>
    decreases addrs.len(),
{
    if addrs.len() == 0 {
        Seq::<u8>::empty()
    } else {
        addrs_bytes(addrs.drop_last()) + addr_bytes(addrs.last())
    }
}

/// The body of a message: what follows the kind byte.
pub open spec fn body_bytes(m: MessageView) -> Seq<u8> {
    match m {
        MessageView::Version { height } => spec_u32_to_le_bytes(height),
        MessageView::Verack => Seq::<u8>::empty(),
        MessageView::GetHeaders { from_hash } => from_hash,
        MessageView::Headers(hashes) => hashes_bytes(hashes),
        MessageView::GetBlocks { hashes } => hashes_bytes(hashes),
        MessageView::Blocks(blocks) => spec_u32_to_le_bytes(length_field(blocks.len()))
            + framed_all(blocks),
        MessageView::Ping(n) => spec_u64_to_le_bytes(n),
        MessageView::Pong(n) => spec_u64_to_le_bytes(n),
        MessageView::Challenge(c) => c,
        MessageView::Response(r) => r,
        MessageView::Addr(addrs) => spec_u32_to_le_bytes(length_field(addrs.len())) + addrs_bytes(
            addrs,
        ),
        MessageView::GetAddr => Seq::<u8>::empty(),
        MessageView::Tx(raw) => raw,
    }
}

/// The payload of a message: kind (1) ‖ body.
pub open spec fn payload_bytes(m: MessageView) -> Seq<u8> {
    seq![m.kind().spec_code()] + body_bytes(m)
}

/// The frame of a message: `KNOT` ‖ payload length (4, LE) ‖ payload.
pub open spec fn frame_bytes(m: MessageView) -> Seq<u8> {
    magic() + spec_u32_to_le_bytes(length_field(payload_bytes(m).len())) + payload_bytes(m)
}

pub fn write_u32(buf: &mut Vec<u8>, v: u32)
    ensures
        final(buf)@ == old(buf)@ + spec_u32_to_le_bytes(v),
{
    put_u32(buf, v);
}

pub fn write_u64(buf: &mut Vec<u8>, v: u64)
    ensures
        final(buf)@ == old(buf)@ + spec_u64_to_le_bytes(v),
{
    put_u64(buf, v);
}

/// The count of a list as it is written into a four-byte field.
fn count_field(n: usize) -> (c: u32)
    ensures
        c == length_field(n as nat),
{
    (n as u64 % 0x1_0000_0000u64) as u32
}

pub fn write_hashes(buf: &mut Vec<u8>, hashes: &[[u8; 32]])
    ensures
        final(buf)@ == old(buf)@ + hashes_bytes(hash_views(hashes@)),
{
    write_u32(buf, count_field(hashes.len()));
    let ghost head = buf@;
    let ghost views = hash_views(hashes@);
    assert(views.take(0) =~= Seq::<Seq<u8>>::empty());
    let mut i: usize = 0;
    while i < hashes.len()
        invariant
            i <= hashes@.len(),
            views == hash_views(hashes@),
            buf@ == head + concat_all(views.take(i as int)),
        decreases hashes@.len() - i,
    {
        proof {
            assert(views.take(i + 1).drop_last() =~= views.take(i as int));
            assert(views.take(i + 1).last() == hashes@[i as int]@);
        }
        put_bytes(buf, hashes[i].as_slice());
        assert(buf@ =~= head + concat_all(views.take(i + 1)));
        i += 1;
    }
    assert(views.take(i as int) =~= views);
    assert(buf@ =~= old(buf)@ + hashes_bytes(views));
}

/// Appends the two big-endian bytes of a port.
fn write_port(buf: &mut Vec<u8>, port: u16)
    ensures
        final(buf)@ == old(buf)@ + port_bytes(port),
{
    buf.push((port / 256) as u8);
    buf.push((port % 256) as u8);
    assert(buf@ =~= old(buf)@ + port_bytes(port));
}

/// Appends an address.
fn write_addr(buf: &mut Vec<u8>, addr: &PeerAddr)
    ensures
        final(buf)@ == old(buf)@ + addr_bytes(*addr),
{
    match addr {
        PeerAddr::V4 { ip, port } => {
            buf.push(0x04);
            put_bytes(buf, ip.as_slice());
            write_port(buf, *port);
            assert(buf@ =~= old(buf)@ + addr_bytes(*addr));
        },
        PeerAddr::V6 { ip, port } => {
            buf.push(0x06);
            put_bytes(buf, ip.as_slice());
            write_port(buf, *port);
            assert(buf@ =~= old(buf)@ + addr_bytes(*addr));
        },
    }
}

impl NetworkMessage {
    /// The kind of the message.
    pub fn kind(&self) -> (t: MsgType)
        ensures
            t == self@.kind(),
    {
        match self {
            NetworkMessage::Version { .. } => MsgType::Version,
            NetworkMessage::Verack => MsgType::Verack,
            NetworkMessage::GetHeaders { .. } => MsgType::GetHeaders,
            NetworkMessage::Headers(_) => MsgType::Headers,
            NetworkMessage::GetBlocks { .. } => MsgType::GetBlocks,
            NetworkMessage::Blocks(_) => MsgType::Blocks,
            NetworkMessage::Ping(_) => MsgType::Ping,
            NetworkMessage::Pong(_) => MsgType::Pong,
            NetworkMessage::Challenge(_) => MsgType::Challenge,
            NetworkMessage::Response(_) => MsgType::Response,
            NetworkMessage::Addr(_) => MsgType::Addr,
            NetworkMessage::GetAddr => MsgType::GetAddr,
            NetworkMessage::Tx(_) => MsgType::Tx,
        }
    }

    /// Appends the body of the message.
    fn write_body(&self, payload: &mut Vec<u8>)
        ensures
            final(payload)@ == old(payload)@ + body_bytes(self@),
    {
        match self {
            NetworkMessage::Version { height } => {
                write_u32(payload, *height);
            },
            NetworkMessage::Verack => {
                assert(payload@ =~= old(payload)@ + Seq::<u8>::empty());
            },
            NetworkMessage::GetHeaders { from_hash } => {
                put_bytes(payload, from_hash.as_slice());
            },
            NetworkMessage::Headers(hashes) => {
                write_hashes(payload, hashes.as_slice());
            },
            NetworkMessage::GetBlocks { hashes } => {
                write_hashes(payload, hashes.as_slice());
            },
            NetworkMessage::Blocks(blocks) => {
                write_u32(payload, count_field(blocks.len()));
                let ghost head = payload@;
                let ghost views = blob_views(blocks@);
                assert(views.take(0) =~= Seq::<Seq<u8>>::empty());
                let mut i: usize = 0;
                while i < blocks.len()
                    invariant
                        i <= blocks@.len(),
                        views == blob_views(blocks@),
                        payload@ == head + framed_all(views.take(i as int)),
                    decreases blocks@.len() - i,
                {
                    proof {
                        assert(views.take(i + 1).drop_last() =~= views.take(i as int));
                        assert(views.take(i + 1).last() == blocks@[i as int]@);
                    }
                    write_u32(payload, count_field(blocks[i].len()));
                    put_bytes(payload, blocks[i].as_slice());
                    assert(payload@ =~= head + framed_all(views.take(i + 1)));
                    i += 1;
                }
                assert(views.take(i as int) =~= views);
                assert(payload@ =~= old(payload)@ + body_bytes(self@));
            },
            NetworkMessage::Ping(n) => {
                write_u64(payload, *n);
            },
            NetworkMessage::Pong(n) => {
                write_u64(payload, *n);
            },
            NetworkMessage::Response(r) => {
                put_bytes(payload, r.as_slice());
            },
            NetworkMessage::Challenge(c) => {
                put_bytes(payload, c.as_slice());
            },
            NetworkMessage::Addr(addrs) => {
                write_u32(payload, count_field(addrs.len()));
                let ghost head = payload@;
                assert(addrs@.take(0) =~= Seq::<PeerAddr>::empty());
                let mut i: usize = 0;
                while i < addrs.len()
                    invariant
                        i <= addrs@.len(),
                        payload@ == head + addrs_bytes(addrs@.take(i as int)),
                    decreases addrs@.len() - i,
                {
                    proof {
                        assert(addrs@.take(i + 1).drop_last() =~= addrs@.take(i as int));
                        assert(addrs@.take(i + 1).last() == addrs@[i as int]);
                    }
                    write_addr(payload, &addrs[i]);
                    assert(payload@ =~= head + addrs_bytes(addrs@.take(i + 1)));
                    i += 1;
                }
                assert(addrs@.take(i as int) =~= addrs@);
                assert(payload@ =~= old(payload)@ + body_bytes(self@));
            },
            NetworkMessage::GetAddr => {
                assert(payload@ =~= old(payload)@ + Seq::<u8>::empty());
            },
            NetworkMessage::Tx(raw) => {
                put_bytes(payload, raw.as_slice());
            },
        }
    }

    /// The frame of the message.
    pub fn encode(&self) -> (frame: Vec<u8>)
        ensures
            frame@ == frame_bytes(self@),
    {
        let mut payload: Vec<u8> = Vec::new();
        payload.push(self.kind().code());
        self.write_body(&mut payload);
        assert(payload@ =~= payload_bytes(self@));
        let mut frame: Vec<u8> = Vec::new();
        frame.push(0x4B);
        frame.push(0x4E);
        frame.push(0x4F);
        frame.push(0x54);
        assert(frame@ =~= magic());
        put_u32(&mut frame, count_field(payload.len()));
        put_bytes(&mut frame, payload.as_slice());
        frame
    }
}


/// The list of hashes at the start of a body: count (4, LE; at most 2000)
/// and that many hashes.
pub open spec fn parse_hashes(body: Seq<u8>) -> Option<Seq<Seq<u8>>> {
    if body.len() < 4 {
        None
    } else {
        let count = le32(body.subrange(0, 4)) as int;
        if count > 2000 || body.len() < 4 + 32 * count {
            None
        } else {
            Some(Seq::new(count as nat, |i: int| body.subrange(4 + 32 * i, 4 + 32 * i + 32)))
        }
    }
}

/// The first `n` length-prefixed byte strings behind the count field of a
/// body, and the offset behind them.
pub open spec fn parse_blobs(body: Seq<u8>, n: nat) -> Option<(Seq<Seq<u8>>, int)>
    decreases n,
{
    if n == 0 {
        Some((Seq::<Seq<u8>>::empty(), 4int))
    } else {
        match parse_blobs(body, (n - 1) as nat) {
            None => None,
            Some((blobs, off)) => if body.len() < off + 4 {
                None
            } else {
                let len = le32(body.subrange(off, off + 4)) as int;
                if body.len() < off + 4 + len {
                    None
                } else {
                    Some((blobs.push(body.subrange(off + 4, off + 4 + len)), off + 4 + len))
                }
            },
        }
    }
}

/// The address at `off` and the offset behind it.
pub open spec fn parse_addr(body: Seq<u8>, off: int) -> Option<(PeerAddr, int)> {
    if off >= body.len() {
        None
    } else if body[off] == 0x04 {
        if body.len() < off + 7 {
            None
        } else {
            Some(
                (
                    PeerAddr::V4 {
                        ip: array4(body.subrange(off + 1, off + 5)),
                        port: port_of(body.subrange(off + 5, off + 7)),
                    },
                    off + 7,
                ),
            )
        }
    } else if body[off] == 0x06 {
        if body.len() < off + 19 {
            None
        } else {
            Some(
                (
                    PeerAddr::V6 {
                        ip: array16(body.subrange(off + 1, off + 17)),
                        port: port_of(body.subrange(off + 17, off + 19)),
                    },
                    off + 19,
                ),
            )
        }
    } else {
        None
    }
}

/// The four-byte array whose bytes are `s`.
pub open spec fn array4(s: Seq<u8>) -> [u8; 4] {
    choose|a: [u8; 4]| a@ == s
}

/// The 16-byte array whose bytes are `s`.
pub open spec fn array16(s: Seq<u8>) -> [u8; 16] {
    choose|a: [u8; 16]| a@ == s
}

proof fn lemma_array4(a: [u8; 4])
    ensures
        array4(a@) == a,
{
    let b = array4(a@);
    assert(b@ == a@);
    assert(b =~= a);
}

proof fn lemma_array16(a: [u8; 16])
    ensures
        array16(a@) == a,
{
    let b = array16(a@);
    assert(b@ == a@);
    assert(b =~= a);
}

/// The first `n` addresses behind the count field of a body, and the offset
/// behind them.
pub open spec fn parse_addrs(body: Seq<u8>, n: nat) -> Option<(Seq<PeerAddr>, int)>
    decreases n,
{
    if n == 0 {
        Some((Seq::<PeerAddr>::empty(), 4int))
    } else {
        match parse_addrs(body, (n - 1) as nat) {
            None => None,
            Some((addrs, off)) => match parse_addr(body, off) {
                None => None,
                Some((a, next)) => Some((addrs.push(a), next)),
            },
        }
    }
}

/// The message that a kind and a body stand for.
pub open spec fn parse_body(kind: MsgType, body: Seq<u8>) -> Option<MessageView> {
    match kind {
        MsgType::Version => if body.len() < 4 {
            None
        } else {
            Some(MessageView::Version { height: le32(body.subrange(0, 4)) })
        },
        MsgType::Verack => Some(MessageView::Verack),
        MsgType::GetHeaders => if body.len() < 32 {
            None
        } else {
            Some(MessageView::GetHeaders { from_hash: body.subrange(0, 32) })
        },
        MsgType::Headers => match parse_hashes(body) {
            Some(hashes) => Some(MessageView::Headers(hashes)),
            None => None,
        },
        MsgType::GetBlocks => match parse_hashes(body) {
            Some(hashes) => Some(MessageView::GetBlocks { hashes }),
            None => None,
        },
        MsgType::Blocks => if body.len() < 4 || le32(body.subrange(0, 4)) > 500 {
            None
        } else {
            match parse_blobs(body, le32(body.subrange(0, 4)) as nat) {
                Some((blobs, _)) => Some(MessageView::Blocks(blobs)),
                None => None,
            }
        },
        MsgType::Ping => if body.len() < 8 {
            None
        } else {
            Some(MessageView::Ping(le64(body.subrange(0, 8))))
        },
        MsgType::Pong => if body.len() < 8 {
            None
        } else {
            Some(MessageView::Pong(le64(body.subrange(0, 8))))
        },
        MsgType::Challenge => if body.len() < 32 {
            None
        } else {
            Some(MessageView::Challenge(body.subrange(0, 32)))
        },
        MsgType::Response => if body.len() < 32 {
            None
        } else {
            Some(MessageView::Response(body.subrange(0, 32)))
        },
        MsgType::Addr => if body.len() < 4 || le32(body.subrange(0, 4)) > 1000 {
            None
        } else {
            match parse_addrs(body, le32(body.subrange(0, 4)) as nat) {
                Some((addrs, _)) => Some(MessageView::Addr(addrs)),
                None => None,
            }
        },
        MsgType::GetAddr => Some(MessageView::GetAddr),
        MsgType::Tx => Some(MessageView::Tx(body)),
    }
}

/// The message that a frame stands for: the frame starts with `KNOT`, holds
/// the payload that its length field announces, and the payload is a kind
/// byte and a body of that kind. Bytes behind the payload are not looked at.
pub open spec fn parse_frame(data: Seq<u8>) -> Option<MessageView> {
    if data.len() < 9 || data.subrange(0, 4) != magic() {
        None
    } else {
        let payload_len = le32(data.subrange(4, 8)) as int;
        if payload_len < 1 || data.len() < 8 + payload_len {
            None
        } else {
            match MsgType::spec_from_u8(data[8]) {
                None => None,
                Some(kind) => parse_body(kind, data.subrange(9, 8 + payload_len)),
            }
        }
    }
}

proof fn lemma_parse_blobs_none(body: Seq<u8>, i: nat, n: nat)
    requires
        i <= n,
        parse_blobs(body, i).is_none(),
    ensures
        parse_blobs(body, n).is_none(),
    decreases n,
{
    if i < n {
        lemma_parse_blobs_none(body, i, (n - 1) as nat);
    }
}

proof fn lemma_parse_addrs_none(body: Seq<u8>, i: nat, n: nat)
    requires
        i <= n,
        parse_addrs(body, i).is_none(),
    ensures
        parse_addrs(body, n).is_none(),
    decreases n,
{
    if i < n {
        lemma_parse_addrs_none(body, i, (n - 1) as nat);
    }
}

/// Reads a little-endian `u32` at `*off` and moves `*off` behind it.
pub fn read_u32(d: &[u8], off: &mut usize) -> (r: Option<u32>)
    requires
        *old(off) <= d@.len(),
    ensures
        match r {
            Some(v) => *old(off) + 4 <= d@.len() && v == le32(
                d@.subrange(*old(off) as int, *old(off) + 4),
            ) && *final(off) == *old(off) + 4,
            None => d@.len() < *old(off) + 4 && *final(off) == *old(off),
        },
{
    if d.len() - *off < 4 {
        return None;
    }
    let v = get_u32(d, *off);
    *off += 4;
    Some(v)
}

/// Reads a little-endian `u64` at `*off` and moves `*off` behind it.
pub fn read_u64(d: &[u8], off: &mut usize) -> (r: Option<u64>)
    requires
        *old(off) <= d@.len(),
    ensures
        match r {
            Some(v) => *old(off) + 8 <= d@.len() && v == le64(
                d@.subrange(*old(off) as int, *old(off) + 8),
            ) && *final(off) == *old(off) + 8,
            None => d@.len() < *old(off) + 8 && *final(off) == *old(off),
        },
{
    if d.len() - *off < 8 {
        return None;
    }
    let v = get_u64(d, *off);
    *off += 8;
    Some(v)
}

/// Reads 32 bytes at `*off` and moves `*off` behind them.
pub fn read_hash(d: &[u8], off: &mut usize) -> (r: Option<[u8; 32]>)
    requires
        *old(off) <= d@.len(),
    ensures
        match r {
            Some(h) => *old(off) + 32 <= d@.len() && h@ == d@.subrange(
                *old(off) as int,
                *old(off) + 32,
            ) && *final(off) == *old(off) + 32,
            None => d@.len() < *old(off) + 32 && *final(off) == *old(off),
        },
{
    if d.len() - *off < 32 {
        return None;
    }
    let h: [u8; 32] = read_array(d, *off);
    *off += 32;
    Some(h)
}

/// Reads a list of at most 2000 hashes from the start of `d`.
pub fn read_hashes(d: &[u8]) -> (r: Option<Vec<[u8; 32]>>)
    ensures
        match r {
            Some(hashes) => parse_hashes(d@) == Some(hash_views(hashes@)),
            None => parse_hashes(d@).is_none(),
        },
{
    let mut off: usize = 0;
    let count = match read_u32(d, &mut off) {
        Some(c) => c as usize,
        None => {
            return None;
        },
    };
    if count > MAX_HASHES_PER_MSG {
        return None;
    }
    if (d.len() - 4) / 32 < count {
        return None;
    }
    let mut out: Vec<[u8; 32]> = Vec::new();
    let mut i: usize = 0;
    while i < count
        invariant
            i <= count <= 2000,
            4 + 32 * count <= d@.len(),
            off == 4 + 32 * i,
            out@.len() == i,
            forall|k: int|
                0 <= k < i ==> (#[trigger] out@[k])@ == d@.subrange(4 + 32 * k, 4 + 32 * k + 32),
        decreases count - i,
    {
        match read_hash(d, &mut off) {
            Some(h) => {
                out.push(h);
            },
            None => {
                return None;
            },
        }
        i += 1;
    }
    assert(hash_views(out@) =~= parse_hashes(d@).unwrap());
    Some(out)
}

/// Reads the address at `*off` and moves `*off` behind it.
fn read_addr(body: &[u8], off: &mut usize) -> (r: Option<PeerAddr>)
    requires
        *old(off) <= body@.len(),
    ensures
        match r {
            Some(a) => parse_addr(body@, *old(off) as int) == Some((a, *final(off) as int))
                && *final(off) <= body@.len(),
            None => parse_addr(body@, *old(off) as int).is_none(),
        },
{
    let start = *off;
    if start >= body.len() {
        return None;
    }
    let family = body[start];
    if family == 0x04 {
        if body.len() - start < 7 {
            return None;
        }
        let ip: [u8; 4] = read_array(body, start + 1);
        let port: u16 = body[start + 5] as u16 * 256 + body[start + 6] as u16;
        proof {
            lemma_array4(ip);
            let p = body@.subrange(start + 5, start + 7);
            assert(p[0] == body@[start + 5] && p[1] == body@[start + 6]);
        }
        *off = start + 7;
        Some(PeerAddr::V4 { ip, port })
    } else if family == 0x06 {
        if body.len() - start < 19 {
            return None;
        }
        let ip: [u8; 16] = read_array(body, start + 1);
        let port: u16 = body[start + 17] as u16 * 256 + body[start + 18] as u16;
        proof {
            lemma_array16(ip);
            let p = body@.subrange(start + 17, start + 19);
            assert(p[0] == body@[start + 17] && p[1] == body@[start + 18]);
        }
        *off = start + 19;
        Some(PeerAddr::V6 { ip, port })
    } else {
        None
    }
}

/// Reads the body of a `Blocks` message.
#[verifier::loop_isolation(false)]
fn read_blocks(body: &[u8]) -> (r: Option<Vec<Vec<u8>>>)
    ensures
        match r {
            Some(blocks) => parse_body(MsgType::Blocks, body@) == Some(
                MessageView::Blocks(blob_views(blocks@)),
            ),
            None => parse_body(MsgType::Blocks, body@).is_none(),
        },
{
    let mut off: usize = 0;
    let count = match read_u32(body, &mut off) {
        Some(c) => c as usize,
        None => {
            return None;
        },
    };
    if count > MAX_BLOCKS_IN_MSG {
        return None;
    }
    let mut blocks: Vec<Vec<u8>> = Vec::new();
    let mut i: usize = 0;
    assert(blob_views(blocks@) =~= Seq::<Seq<u8>>::empty());
    while i < count
        invariant
            i <= count,
            off <= body@.len(),
            parse_blobs(body@, i as nat) == Some((blob_views(blocks@), off as int)),
        decreases count - i,
    {
        let len = match read_u32(body, &mut off) {
            Some(l) => l as usize,
            None => {
                proof {
                    lemma_parse_blobs_none(body@, (i + 1) as nat, count as nat);
                }
                return None;
            },
        };
        if body.len() - off < len {
            proof {
                lemma_parse_blobs_none(body@, (i + 1) as nat, count as nat);
            }
            return None;
        }
        let blob = copy_bytes(body, off, off + len);
        proof {
            assert(blob_views(blocks@.push(blob)) =~= blob_views(blocks@).push(blob@));
        }
        blocks.push(blob);
        off += len;
        i += 1;
    }
    Some(blocks)
}

/// Reads the body of an `Addr` message.
#[verifier::loop_isolation(false)]
fn read_addrs(body: &[u8]) -> (r: Option<Vec<PeerAddr>>)
    ensures
        match r {
            Some(addrs) => parse_body(MsgType::Addr, body@) == Some(MessageView::Addr(addrs@)),
            None => parse_body(MsgType::Addr, body@).is_none(),
        },
{
    let mut off: usize = 0;
    let count = match read_u32(body, &mut off) {
        Some(c) => c as usize,
        None => {
            return None;
        },
    };
    if count > MAX_ADDRS_PER_MSG {
        return None;
    }
    let mut addrs: Vec<PeerAddr> = Vec::new();
    let mut i: usize = 0;
    while i < count
        invariant
            i <= count,
            off <= body@.len(),
            parse_addrs(body@, i as nat) == Some((addrs@, off as int)),
        decreases count - i,
    {
        match read_addr(body, &mut off) {
            Some(a) => {
                addrs.push(a);
            },
            None => {
                proof {
                    lemma_parse_addrs_none(body@, (i + 1) as nat, count as nat);
                }
                return None;
            },
        }
        i += 1;
    }
    Some(addrs)
}

impl NetworkMessage {
    /// Reads the message of a frame.
    pub fn decode(data: &[u8]) -> (r: Option<Self>)
        ensures
            match r {
                Some(m) => parse_frame(data@) == Some(m@),
                None => parse_frame(data@).is_none(),
            },
    {
        if data.len() < 9 {
            return None;
        }
        if data[0] != 0x4B || data[1] != 0x4E || data[2] != 0x4F || data[3] != 0x54 {
            proof {
                let p = data@.subrange(0, 4);
                assert(p[0] == data@[0] && p[1] == data@[1] && p[2] == data@[2] && p[3]
                    == data@[3]);
            }
            return None;
        }
        assert(data@.subrange(0, 4) =~= magic());
        let payload_len = get_u32(data, 4) as usize;
        if payload_len < 1 || data.len() - 8 < payload_len {
            return None;
        }
        let kind = match MsgType::from_u8(data[8]) {
            Some(k) => k,
            None => {
                return None;
            },
        };
        let body = vstd::slice::slice_subrange(data, 9, 8 + payload_len);
        let mut off: usize = 0;
        match kind {
            MsgType::Version => match read_u32(body, &mut off) {
                Some(height) => Some(NetworkMessage::Version { height }),
                None => None,
            },
            MsgType::Verack => Some(NetworkMessage::Verack),
            MsgType::GetHeaders => match read_hash(body, &mut off) {
                Some(from_hash) => Some(NetworkMessage::GetHeaders { from_hash }),
                None => None,
            },
            MsgType::Headers => match read_hashes(body) {
                Some(hashes) => Some(NetworkMessage::Headers(hashes)),
                None => None,
            },
            MsgType::GetBlocks => match read_hashes(body) {
                Some(hashes) => Some(NetworkMessage::GetBlocks { hashes }),
                None => None,
            },
            MsgType::Blocks => match read_blocks(body) {
                Some(blocks) => Some(NetworkMessage::Blocks(blocks)),
                None => None,
            },
            MsgType::Ping => match read_u64(body, &mut off) {
                Some(n) => Some(NetworkMessage::Ping(n)),
                None => None,
            },
            MsgType::Pong => match read_u64(body, &mut off) {
                Some(n) => Some(NetworkMessage::Pong(n)),
                None => None,
            },
            MsgType::Response => match read_hash(body, &mut off) {
                Some(r) => Some(NetworkMessage::Response(r)),
                None => None,
            },
            MsgType::Challenge => match read_hash(body, &mut off) {
                Some(c) => Some(NetworkMessage::Challenge(c)),
                None => None,
            },
            MsgType::Addr => match read_addrs(body) {
                Some(addrs) => Some(NetworkMessage::Addr(addrs)),
                None => None,
            },
            MsgType::GetAddr => Some(NetworkMessage::GetAddr),
            MsgType::Tx => {
                let raw = copy_bytes(body, 0, body.len());
                assert(raw@ =~= body@);
                Some(NetworkMessage::Tx(raw))
            },
        }
    }

    /// The blocks of a `Blocks` message, parsed; `None` for any other
    /// message and where one of the blocks does not parse.
    pub fn into_stored_blocks(self) -> (r: Option<Vec<StoredBlock>>)
        ensures
            match r {
                Some(blocks) => self@ is Blocks && blocks@.len() == self@->Blocks_0.len()
                    && forall|i: int|
                    0 <= i < blocks@.len() ==> crate::node::db_common::parse_block(
                        self@->Blocks_0[i],
                    ) == Ok::<crate::node::db_common::BlockView, &'static str>(
                        (#[trigger] blocks@[i])@,
                    ),
                None => !(self@ is Blocks) || exists|i: int|
                    0 <= i < self@->Blocks_0.len() && crate::node::db_common::parse_block(
                        #[trigger] self@->Blocks_0[i],
                    ) is Err,
            },
    {
        if let NetworkMessage::Blocks(raws) = self {
            let mut out: Vec<StoredBlock> = Vec::new();
            let mut i: usize = 0;
            while i < raws.len()
                invariant
                    i <= raws@.len(),
                    out@.len() == i,
                    self@ == MessageView::Blocks(blob_views(raws@)),
                    forall|k: int|
                        0 <= k < i ==> crate::node::db_common::parse_block(raws@[k]@) == Ok::<
                            crate::node::db_common::BlockView,
                            &'static str,
                        >((#[trigger] out@[k])@),
                decreases raws@.len() - i,
            {
                match StoredBlock::from_bytes(raws[i].as_slice()) {
                    Ok(b) => {
                        out.push(b);
                    },
                    Err(_) => {
                        assert(crate::node::db_common::parse_block(
                            self@->Blocks_0[i as int],
                        ) is Err);
                        return None;
                    },
                }
                i += 1;
            }
            Some(out)
        } else {
            None
        }
    }
}


/// Whether a message can be sent and read again: its payload fits the
/// length field, its hashes have 32 bytes, and its lists keep to their limits.
pub open spec fn sendable(m: MessageView) -> bool {
    &&& payload_bytes(m).len() < 0x1_0000_0000
    &&& match m {
        MessageView::GetHeaders { from_hash } => from_hash.len() == 32,
        MessageView::Headers(hashes) => hashes.len() <= 2000 && forall|i: int|
            0 <= i < hashes.len() ==> (#[trigger] hashes[i]).len() == 32,
        MessageView::GetBlocks { hashes } => hashes.len() <= 2000 && forall|i: int|
            0 <= i < hashes.len() ==> (#[trigger] hashes[i]).len() == 32,
        MessageView::Blocks(blocks) => blocks.len() <= 500 && forall|i: int|
            0 <= i < blocks.len() ==> (#[trigger] blocks[i]).len() < 0x1_0000_0000,
        MessageView::Challenge(c) => c.len() == 32,
        MessageView::Response(r) => r.len() == 32,
        MessageView::Addr(addrs) => addrs.len() <= 1000,
        _ => true,
    }
}

proof fn lemma_concat_all(hashes: Seq<Seq<u8>>)
    requires
        forall|i: int| 0 <= i < hashes.len() ==> (#[trigger] hashes[i]).len() == 32,
    ensures
        concat_all(hashes).len() == 32 * hashes.len(),
        forall|i: int|
            0 <= i < hashes.len() ==> concat_all(hashes).subrange(32 * i, 32 * i + 32)
                == #[trigger] hashes[i],
    decreases hashes.len(),
{
    if hashes.len() > 0 {
        let q = hashes.drop_last();
        assert forall|i: int| 0 <= i < q.len() implies (#[trigger] q[i]).len() == 32 by {
            assert(q[i] == hashes[i]);
        }
        lemma_concat_all(q);
        let all = concat_all(hashes);
        assert forall|i: int| 0 <= i < hashes.len() implies all.subrange(32 * i, 32 * i + 32)
            == #[trigger] hashes[i] by {
            if i < q.len() {
                assert(all.subrange(32 * i, 32 * i + 32) =~= concat_all(q).subrange(
                    32 * i,
                    32 * i + 32,
                ));
                assert(q[i] == hashes[i]);
            } else {
                assert(all.subrange(32 * i, 32 * i + 32) =~= hashes.last());
            }
        }
    }
}

proof fn lemma_hashes_round_trip(hashes: Seq<Seq<u8>>)
    requires
        hashes.len() <= 2000,
        forall|i: int| 0 <= i < hashes.len() ==> (#[trigger] hashes[i]).len() == 32,
    ensures
        parse_hashes(hashes_bytes(hashes)) == Some(hashes),
{
    vstd::bytes::lemma_auto_spec_u32_to_from_le_bytes();
    lemma_concat_all(hashes);
    let body = hashes_bytes(hashes);
    let count = spec_u32_to_le_bytes(length_field(hashes.len()));
    assert(count.len() == 4);
    assert(body.subrange(0, 4) =~= count);
    let parsed = Seq::new(hashes.len(), |i: int| body.subrange(4 + 32 * i, 4 + 32 * i + 32));
    assert forall|i: int| 0 <= i < hashes.len() implies parsed[i] == hashes[i] by {
        assert(body.subrange(4 + 32 * i, 4 + 32 * i + 32) =~= concat_all(hashes).subrange(
            32 * i,
            32 * i + 32,
        ));
    }
    assert(parsed =~= hashes);
}

proof fn lemma_blobs_round_trip(head: Seq<u8>, blobs: Seq<Seq<u8>>, rest: Seq<u8>)
    requires
        head.len() == 4,
        forall|i: int| 0 <= i < blobs.len() ==> (#[trigger] blobs[i]).len() < 0x1_0000_0000,
    ensures
        parse_blobs(head + framed_all(blobs) + rest, blobs.len()) == Some(
            (blobs, 4 + framed_all(blobs).len() as int),
        ),
    decreases blobs.len(),
{
    vstd::bytes::lemma_auto_spec_u32_to_from_le_bytes();
    if blobs.len() > 0 {
        let q = blobs.drop_last();
        let last = blobs.last();
        assert(last == blobs[blobs.len() - 1]);
        let len = spec_u32_to_le_bytes(length_field(last.len()));
        assert(len.len() == 4);
        assert forall|i: int| 0 <= i < q.len() implies (#[trigger] q[i]).len()
            < 0x1_0000_0000 by {
            assert(q[i] == blobs[i]);
        }
        lemma_blobs_round_trip(head, q, len + last + rest);
        let body = head + framed_all(blobs) + rest;
        assert(body =~= head + framed_all(q) + (len + last + rest));
        let off: int = 4 + framed_all(q).len() as int;
        assert(body.subrange(off, off + 4) =~= len);
        assert(body.subrange(off + 4, off + 4 + last.len()) =~= last);
        assert(q.push(last) =~= blobs);
    } else {
        assert(blobs =~= Seq::<Seq<u8>>::empty());
    }
}

proof fn lemma_addr_round_trip(body: Seq<u8>, off: int, a: PeerAddr)
    requires
        0 <= off,
        off + addr_bytes(a).len() <= body.len(),
        body.subrange(off, off + addr_bytes(a).len()) == addr_bytes(a),
    ensures
        parse_addr(body, off) == Some((a, off + addr_bytes(a).len())),
{
    let w = addr_bytes(a);
    assert(body[off] == w[0]);
    match a {
        PeerAddr::V4 { ip, port } => {
            assert(w.len() == 7);
            assert(body.subrange(off + 1, off + 5) =~= w.subrange(1, 5));
            assert(w.subrange(1, 5) =~= ip@);
            assert(body.subrange(off + 5, off + 7) =~= w.subrange(5, 7));
            assert(w.subrange(5, 7) =~= port_bytes(port));
            lemma_array4(ip);
        },
        PeerAddr::V6 { ip, port } => {
            assert(w.len() == 19);
            assert(body.subrange(off + 1, off + 17) =~= w.subrange(1, 17));
            assert(w.subrange(1, 17) =~= ip@);
            assert(body.subrange(off + 17, off + 19) =~= w.subrange(17, 19));
            assert(w.subrange(17, 19) =~= port_bytes(port));
            lemma_array16(ip);
        },
    }
}

proof fn lemma_addrs_round_trip(head: Seq<u8>, addrs: Seq<PeerAddr>, rest: Seq<u8>)
    requires
        head.len() == 4,
    ensures
        parse_addrs(head + addrs_bytes(addrs) + rest, addrs.len()) == Some(
            (addrs, 4 + addrs_bytes(addrs).len() as int),
        ),
    decreases addrs.len(),
{
    if addrs.len() > 0 {
        let q = addrs.drop_last();
        let last = addrs.last();
        lemma_addrs_round_trip(head, q, addr_bytes(last) + rest);
        let body = head + addrs_bytes(addrs) + rest;
        assert(body =~= head + addrs_bytes(q) + (addr_bytes(last) + rest));
        let off: int = 4 + addrs_bytes(q).len() as int;
        assert(body.subrange(off, off + addr_bytes(last).len()) =~= addr_bytes(last));
        lemma_addr_round_trip(body, off, last);
        assert(q.push(last) =~= addrs);
    } else {
        assert(addrs =~= Seq::<PeerAddr>::empty());
    }
}

/// Reading the frame of a message gives the message back.
pub proof fn law_frame_round_trip(m: MessageView)
    requires
        sendable(m),
    ensures
        parse_frame(frame_bytes(m)) == Some(m),
{
    vstd::bytes::lemma_auto_spec_u32_to_from_le_bytes();
    vstd::bytes::lemma_auto_spec_u64_to_from_le_bytes();
    let payload = payload_bytes(m);
    let body = body_bytes(m);
    let data = frame_bytes(m);
    let len = spec_u32_to_le_bytes(length_field(payload.len()));
    assert(len.len() == 4);
    assert(data.subrange(0, 4) =~= magic());
    assert(data.subrange(4, 8) =~= len);
    assert(le32(data.subrange(4, 8)) == payload.len());
    assert(data[8] == m.kind().spec_code());
    assert(data.subrange(9, 8 + payload.len() as int) =~= body);
    match m {
        MessageView::Version { height } => {
            assert(spec_u32_to_le_bytes(height).len() == 4);
            assert(body.subrange(0, 4) =~= body);
        },
        MessageView::GetHeaders { from_hash } => {
            assert(body.subrange(0, 32) =~= body);
        },
        MessageView::Headers(hashes) => {
            lemma_hashes_round_trip(hashes);
        },
        MessageView::GetBlocks { hashes } => {
            lemma_hashes_round_trip(hashes);
        },
        MessageView::Blocks(blocks) => {
            let head = spec_u32_to_le_bytes(length_field(blocks.len()));
            assert(head.len() == 4);
            lemma_blobs_round_trip(head, blocks, Seq::<u8>::empty());
            assert(body =~= head + framed_all(blocks) + Seq::<u8>::empty());
            assert(body.subrange(0, 4) =~= head);
        },
        MessageView::Ping(n) => {
            assert(spec_u64_to_le_bytes(n).len() == 8);
            assert(body.subrange(0, 8) =~= body);
        },
        MessageView::Pong(n) => {
            assert(spec_u64_to_le_bytes(n).len() == 8);
            assert(body.subrange(0, 8) =~= body);
        },
        MessageView::Challenge(c) => {
            assert(body.subrange(0, 32) =~= body);
        },
        MessageView::Response(r) => {
            assert(body.subrange(0, 32) =~= body);
        },
        MessageView::Addr(addrs) => {
            let head = spec_u32_to_le_bytes(length_field(addrs.len()));
            assert(head.len() == 4);
            lemma_addrs_round_trip(head, addrs, Seq::<u8>::empty());
            assert(body =~= head + addrs_bytes(addrs) + Seq::<u8>::empty());
            assert(body.subrange(0, 4) =~= head);
        },
        _ => {},
    }
}

/// What the bytes received so far hold.
#[derive(Debug, Clone)]
pub enum FrameStep {
    /// No whole frame yet.
    NeedMore,
    /// The frame announces more than 1 MiB: the peer is to be closed.
    TooLarge,
    /// A whole frame, taken off the buffer; `None` where it is no message.
    Frame(Option<NetworkMessage>),
}

/// The announced payload length of the frame at the start of the bytes
/// received.
pub open spec fn announced_length(buf: Seq<u8>) -> int {
    le32(buf.subrange(4, 8)) as int
}

/// Whether the bytes received start with a whole frame of at most 1 MiB.
pub open spec fn holds_frame(buf: Seq<u8>) -> bool {
    buf.len() >= 8 && announced_length(buf) <= 1_048_576 && buf.len() >= 8 + announced_length(buf)
}

/// Takes the first frame off the bytes received so far, in arrival order.
pub fn take_frame(buf: &mut Vec<u8>) -> (step: FrameStep)
    ensures
        match step {
            FrameStep::NeedMore => !holds_frame(old(buf)@) && !(old(buf)@.len() >= 8
                && announced_length(old(buf)@) > 1_048_576) && final(buf)@ == old(buf)@,
            FrameStep::TooLarge => old(buf)@.len() >= 8 && announced_length(old(buf)@)
                > 1_048_576 && final(buf)@ == old(buf)@,
            FrameStep::Frame(m) => holds_frame(old(buf)@) && final(buf)@ == old(buf)@.subrange(
                8 + announced_length(old(buf)@),
                old(buf)@.len() as int,
            ) && (match m {
                Some(msg) => parse_frame(
                    old(buf)@.subrange(0, 8 + announced_length(old(buf)@)),
                ) == Some(msg@),
                None => parse_frame(
                    old(buf)@.subrange(0, 8 + announced_length(old(buf)@)),
                ).is_none(),
            }),
        },
{
    if buf.len() < 8 {
        return FrameStep::NeedMore;
    }
    let payload_len = get_u32(buf.as_slice(), 4) as usize;
    if payload_len > MAX_FRAME {
        return FrameStep::TooLarge;
    }
    if buf.len() - 8 < payload_len {
        return FrameStep::NeedMore;
    }
    let frame_len = 8 + payload_len;
    let mut rest = buf.split_off(frame_len);
    let msg = NetworkMessage::decode(buf.as_slice());
    buf.clear();
    buf.append(&mut rest);
    assert(buf@ =~= old(buf)@.subrange(frame_len as int, old(buf)@.len() as int));
    FrameStep::Frame(msg)
}

} // verus!
