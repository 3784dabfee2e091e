//! The wire form of connection-group packets: a self-delimited binary
//! serialization, one tag byte followed by the fields. Numbers travel as
//! four little-endian bytes; byte strings as a length followed by the
//! bytes; an optional field as one presence byte and, when present, the
//! payload. The encoding is unambiguous: a frame decodes to exactly the
//! packet that encodes to it, and to nothing otherwise.

use vstd::prelude::*;

verus! {

/// Why a connection request was rejected.
#[derive(Clone, Copy, PartialEq, Eq, Structural, Debug)]
pub enum RejReason {
    /// the id (or the label bound to it) is already taken
    Id,
    /// the named parent does not exist
    Parent,
}

/// A connection-group packet, in either direction.
pub enum ConnPacket {
    /// the opening request of the handshake: an optional client socket path
    /// with an echo tag, the component's label, and the parent's label
    ReqConn { socket: Option<(Vec<u8>, u32)>, label: Vec<u8>, parent: Vec<u8> },
    /// the connection was accepted; the echo correlates it to the request
    ApprConn { echo: u32 },
    /// the connection was refused
    RejConn { echo: u32, reason: RejReason },
    /// shut the whole canvas down
    Terminate,
}

/// The mathematical value of a packet.
pub ghost enum PacketV {
    ReqConn { socket: Option<(Seq<u8>, u32)>, label: Seq<u8>, parent: Seq<u8> },
    ApprConn { echo: u32 },
    RejConn { echo: u32, reason: RejReason },
    Terminate,
}

impl View for ConnPacket {
    type V = PacketV;

    open spec fn view(&self) -> PacketV {
        match self {
            ConnPacket::ReqConn { socket, label, parent } => PacketV::ReqConn {
                socket: match socket {
                    Option::Some(s) => Some((s.0@, s.1)),
                    Option::None => None,
                },
                label: label@,
                parent: parent@,
            },
            ConnPacket::ApprConn { echo } => PacketV::ApprConn { echo: *echo },
            ConnPacket::RejConn { echo, reason } => PacketV::RejConn {
                echo: *echo,
                reason: *reason,
            },
            ConnPacket::Terminate => PacketV::Terminate,
        }
    }
}

/// Four little-endian bytes of a number.
pub open spec fn enc_u32(x: u32) -> Seq<u8> {
    seq![
        (x & 0xff) as u8,
        ((x >> 8) & 0xff) as u8,
        ((x >> 16) & 0xff) as u8,
        ((x >> 24) & 0xff) as u8,
    ]
}

/// A length-prefixed byte string.
pub open spec fn enc_bytes(b: Seq<u8>) -> Seq<u8> {
    enc_u32(b.len() as u32) + b
}

/// The encoded form of a packet value.
pub open spec fn spec_encode_v(v: PacketV) -> Seq<u8> {
    match v {
        PacketV::ReqConn { socket, label, parent } => {
            let head = match socket {
                Option::Some(s) => seq![1u8, 1u8] + enc_bytes(s.0) + enc_u32(s.1),
                Option::None => seq![1u8, 0u8],
            };
            head + enc_bytes(label) + enc_bytes(parent)
        },
        PacketV::ApprConn { echo } => seq![2u8] + enc_u32(echo),
        PacketV::RejConn { echo, reason } => seq![3u8] + enc_u32(echo) + seq![
            match reason {
                RejReason::Id => 0u8,
                RejReason::Parent => 1u8,
            },
        ],
        PacketV::Terminate => seq![4u8],
    }
}

/// The encoded form of a packet.
pub open spec fn spec_encode(p: ConnPacket) -> Seq<u8> {
    spec_encode_v(p@)
}

/// A packet value whose byte strings the length prefixes can carry.
pub open spec fn packet_wf_v(v: PacketV) -> bool {
    match v {
        PacketV::ReqConn { socket, label, parent } => {
            &&& label.len() < 0x100000000
            &&& parent.len() < 0x100000000
            &&& (socket matches Some(s) ==> s.0.len() < 0x100000000)
        },
        _ => true,
    }
}

/// Four little-endian bytes name their number uniquely.
pub proof fn lemma_enc_u32_inj(x: u32, y: u32)
    requires
        enc_u32(x) == enc_u32(y),
    ensures
        x == y,
{
    assert(enc_u32(x)[0] == enc_u32(y)[0]);
    assert(enc_u32(x)[1] == enc_u32(y)[1]);
    assert(enc_u32(x)[2] == enc_u32(y)[2]);
    assert(enc_u32(x)[3] == enc_u32(y)[3]);
    assert(x == y) by (bit_vector)
        requires
            (x & 0xff) as u8 == (y & 0xff) as u8,
            ((x >> 8) & 0xff) as u8 == ((y >> 8) & 0xff) as u8,
            ((x >> 16) & 0xff) as u8 == ((y >> 16) & 0xff) as u8,
            ((x >> 24) & 0xff) as u8 == ((y >> 24) & 0xff) as u8,
    ;
}

/// Two length-prefixed strings starting at the same place in the same data
/// are the same string: the prefix pins the length, the length the bytes.
pub proof fn lemma_enc_bytes_agree(data: Seq<u8>, pos: int, a: Seq<u8>, b: Seq<u8>)
    requires
        0 <= pos,
        a.len() < 0x100000000,
        b.len() < 0x100000000,
        pos + 4 + a.len() <= data.len(),
        pos + 4 + b.len() <= data.len(),
        enc_bytes(a) == data.subrange(pos, pos + 4 + a.len()),
        enc_bytes(b) == data.subrange(pos, pos + 4 + b.len()),
    ensures
        a == b,
{
    assert(enc_u32(a.len() as u32) =~= data.subrange(pos, pos + 4)) by {
        assert forall|i: int| #![trigger enc_u32(a.len() as u32)[i]]
            0 <= i < 4 implies enc_u32(a.len() as u32)[i] == data.subrange(pos, pos + 4)[i] by {
            assert(enc_bytes(a)[i] == enc_u32(a.len() as u32)[i]);
            assert(data.subrange(pos, pos + 4 + a.len())[i] == data[pos + i]);
        }
    }
    assert(enc_u32(b.len() as u32) =~= data.subrange(pos, pos + 4)) by {
        assert forall|i: int| #![trigger enc_u32(b.len() as u32)[i]]
            0 <= i < 4 implies enc_u32(b.len() as u32)[i] == data.subrange(pos, pos + 4)[i] by {
            assert(enc_bytes(b)[i] == enc_u32(b.len() as u32)[i]);
            assert(data.subrange(pos, pos + 4 + b.len())[i] == data[pos + i]);
        }
    }
    lemma_enc_u32_inj(a.len() as u32, b.len() as u32);
    assert(a.len() == b.len());
    assert(a =~= b) by {
        assert forall|i: int| 0 <= i < a.len() implies a[i] == b[i] by {
            assert(enc_bytes(a)[4 + i] == a[i]);
            assert(data.subrange(pos, pos + 4 + a.len())[4 + i] == data[pos + 4 + i]);
            assert(enc_bytes(b)[4 + i] == b[i]);
            assert(data.subrange(pos, pos + 4 + b.len())[4 + i] == data[pos + 4 + i]);
        }
    }
}

/// The first bytes of an encoding say which packet it carries.
pub proof fn lemma_encode_shape(v: PacketV)
    ensures
        spec_encode_v(v).len() >= 1,
        v is ReqConn ==> spec_encode_v(v).len() >= 10 && spec_encode_v(v)[0] == 1,
        v is ApprConn ==> spec_encode_v(v).len() == 5 && spec_encode_v(v)[0] == 2,
        v is RejConn ==> spec_encode_v(v).len() == 6 && spec_encode_v(v)[0] == 3 && (
        spec_encode_v(v)[5] == 0 || spec_encode_v(v)[5] == 1),
        v is Terminate ==> spec_encode_v(v).len() == 1 && spec_encode_v(v)[0] == 4,
{
    match v {
        PacketV::ReqConn { socket, label, parent } => {
            match socket {
                Option::Some(s) => {
                    assert(spec_encode_v(v).len() == 2 + 4 + s.0.len() + 4 + 4 + label.len() + 4
                        + parent.len());
                },
                Option::None => {
                    assert(spec_encode_v(v).len() == 2 + 4 + label.len() + 4 + parent.len());
                },
            }
        },
        PacketV::ApprConn { echo } => {
            assert(spec_encode_v(v).len() == 5);
        },
        PacketV::RejConn { echo, reason } => {
            assert(spec_encode_v(v).len() == 6);
            assert(spec_encode_v(v)[5] == (match reason {
                RejReason::Id => 0u8,
                RejReason::Parent => 1u8,
            }));
        },
        PacketV::Terminate => {
            assert(spec_encode_v(v).len() == 1);
        },
    }
}

/// Where the pieces of an encoded connection request sit.
pub proof fn lemma_reqconn_layout(data: Seq<u8>, v: PacketV)
    requires
        v is ReqConn,
        data == spec_encode_v(v),
    ensures
        match v {
            PacketV::ReqConn { socket, label, parent } => {
                let lstart: int = match socket {
                    Option::Some(s) => 2 + 4 + s.0.len() as int + 4,
                    Option::None => 2,
                };
                &&& data[0] == 1
                &&& (socket is Some ==> data[1] == 1)
                &&& (socket is None ==> data[1] == 0)
                &&& (socket matches Some(s) ==> data.subrange(2, 2 + 4 + s.0.len() as int)
                    == enc_bytes(s.0) && data.subrange(
                    2 + 4 + s.0.len() as int,
                    2 + 4 + s.0.len() as int + 4,
                ) == enc_u32(s.1))
                &&& data.subrange(lstart, lstart + 4 + label.len() as int) == enc_bytes(label)
                &&& data.subrange(
                    lstart + 4 + label.len() as int,
                    lstart + 4 + label.len() as int + 4 + parent.len() as int,
                ) == enc_bytes(parent)
                &&& data.len() == lstart + 4 + label.len() + 4 + parent.len()
            },
            _ => true,
        },
{
    match v {
        PacketV::ReqConn { socket, label, parent } => {
            match socket {
                Option::Some(s) => {
                    let pl = s.0.len() as int;
                    assert(data.subrange(2, 2 + 4 + pl) =~= enc_bytes(s.0));
                    assert(data.subrange(2 + 4 + pl, 2 + 4 + pl + 4) =~= enc_u32(s.1));
                    assert(data.subrange(2 + 4 + pl + 4, 2 + 4 + pl + 4 + 4 + label.len())
                        =~= enc_bytes(label));
                    assert(data.subrange(
                        2 + 4 + pl + 4 + 4 + label.len(),
                        2 + 4 + pl + 4 + 4 + label.len() + 4 + parent.len(),
                    ) =~= enc_bytes(parent));
                },
                Option::None => {
                    assert(data.subrange(2, 2 + 4 + label.len() as int) =~= enc_bytes(label));
                    assert(data.subrange(
                        2 + 4 + label.len() as int,
                        2 + 4 + label.len() as int + 4 + parent.len() as int,
                    ) =~= enc_bytes(parent));
                },
            }
        },
        _ => {
        },
    }
}

/// Well-formed encodings are unambiguous: one byte string, one packet value.
pub proof fn lemma_encode_inj(v1: PacketV, v2: PacketV)
    requires
        packet_wf_v(v1),
        packet_wf_v(v2),
        spec_encode_v(v1) == spec_encode_v(v2),
    ensures
        v1 == v2,
{
    lemma_encode_shape(v1);
    lemma_encode_shape(v2);
    let data = spec_encode_v(v1);
    match v1 {
        PacketV::ReqConn { socket: s1, label: l1, parent: q1 } => {
            assert(v2 is ReqConn);
            lemma_reqconn_layout(data, v1);
            lemma_reqconn_layout(data, v2);
            match v2 {
                PacketV::ReqConn { socket: s2, label: l2, parent: q2 } => {
                    match (s1, s2) {
                        (Option::Some(a), Option::Some(b)) => {
                            lemma_enc_bytes_agree(data, 2, a.0, b.0);
                            assert(a.0 == b.0);
                            assert(enc_u32(a.1) == enc_u32(b.1));
                            lemma_enc_u32_inj(a.1, b.1);
                            let lstart: int = 2 + 4 + a.0.len() as int + 4;
                            lemma_enc_bytes_agree(data, lstart, l1, l2);
                            let pstart: int = lstart + 4 + l1.len() as int;
                            lemma_enc_bytes_agree(data, pstart, q1, q2);
                        },
                        (Option::None, Option::None) => {
                            lemma_enc_bytes_agree(data, 2, l1, l2);
                            let pstart: int = 2 + 4 + l1.len() as int;
                            lemma_enc_bytes_agree(data, pstart, q1, q2);
                        },
                        (Option::Some(a), Option::None) => {
                            assert(data[1] == 1 && data[1] == 0);
                        },
                        (Option::None, Option::Some(b)) => {
                            assert(data[1] == 0 && data[1] == 1);
                        },
                    }
                },
                _ => {
                },
            }
        },
        PacketV::ApprConn { echo: e1 } => {
            assert(v2 is ApprConn);
            match v2 {
                PacketV::ApprConn { echo: e2 } => {
                    assert(data.subrange(1, 5) =~= enc_u32(e1));
                    assert(spec_encode_v(v2).subrange(1, 5) =~= enc_u32(e2));
                    lemma_enc_u32_inj(e1, e2);
                },
                _ => {
                },
            }
        },
        PacketV::RejConn { echo: e1, reason: r1 } => {
            assert(v2 is RejConn);
            match v2 {
                PacketV::RejConn { echo: e2, reason: r2 } => {
                    assert(data.subrange(1, 5) =~= enc_u32(e1));
                    assert(spec_encode_v(v2).subrange(1, 5) =~= enc_u32(e2));
                    lemma_enc_u32_inj(e1, e2);
                    assert(data[5] == (match r1 {
                        RejReason::Id => 0u8,
                        RejReason::Parent => 1u8,
                    }));
                    assert(spec_encode_v(v2)[5] == (match r2 {
                        RejReason::Id => 0u8,
                        RejReason::Parent => 1u8,
                    }));
                },
                _ => {
                },
            }
        },
        PacketV::Terminate => {
            assert(v2 is Terminate);
        },
    }
}

/// The spec-level meaning of a frame: the one well-formed packet value it
/// encodes, when there is one.
pub open spec fn spec_frame(data: Seq<u8>) -> Option<PacketV> {
    if exists|v: PacketV| packet_wf_v(v) && (#[trigger] spec_encode_v(v)) == data {
        Some(choose|v: PacketV| packet_wf_v(v) && (#[trigger] spec_encode_v(v)) == data)
    } else {
        None
    }
}

/// Every well-formed packet value's encoding means that value again.
pub proof fn lemma_frame_of_encode(v: PacketV)
    requires
        packet_wf_v(v),
    ensures
        spec_frame(spec_encode_v(v)) == Some(v),
{
    assert(packet_wf_v(v) && spec_encode_v(v) == spec_encode_v(v));
    let q = choose|q: PacketV|
        packet_wf_v(q) && (#[trigger] spec_encode_v(q)) == spec_encode_v(v);
    lemma_encode_inj(v, q);
}

/// Append the four little-endian bytes of `x`.
fn push_u32(out: &mut Vec<u8>, x: u32)
    requires
        old(out)@.len() + 4 <= usize::MAX,
    ensures
        final(out)@ == old(out)@ + enc_u32(x),
{
    let ghost base = out@;
    out.push((x & 0xff) as u8);
    out.push(((x >> 8) & 0xff) as u8);
    out.push(((x >> 16) & 0xff) as u8);
    out.push(((x >> 24) & 0xff) as u8);
    proof {
        assert(out@ =~= base + enc_u32(x));
    }
}

/// Append a length-prefixed byte string.
fn push_bytes(out: &mut Vec<u8>, b: &Vec<u8>)
    requires
        old(out)@.len() + 4 + b@.len() <= usize::MAX,
        b@.len() <= u32::MAX,
    ensures
        final(out)@ == old(out)@ + enc_bytes(b@),
{
    let ghost base = out@;
    push_u32(out, b.len() as u32);
    let n: usize = b.len();
    let mut i: usize = 0;
    while i < n
        invariant
            n == b@.len(),
            0 <= i <= n,
            out@ == base + enc_u32(b@.len() as u32) + b@.subrange(0, i as int),
            out@.len() <= usize::MAX - (n - i),
        decreases n - i,
    {
        out.push(b[i]);
        proof {
            assert(out@ =~= base + enc_u32(b@.len() as u32) + b@.subrange(0, i + 1));
        }
        i = i + 1;
    }
    proof {
        assert(b@.subrange(0, n as int) =~= b@);
        assert(out@ =~= base + enc_bytes(b@));
    }
}

/// Encode a packet for the wire.
pub fn encode_packet(p: &ConnPacket) -> (r: Vec<u8>)
    requires
        packet_wf_v(p@),
        spec_encode(*p).len() <= usize::MAX,
    ensures
        r@ == spec_encode(*p),
{
    let mut out: Vec<u8> = Vec::new();
    match p {
        ConnPacket::ReqConn { socket, label, parent } => {
            proof {
                lemma_encode_shape(p@);
            }
            out.push(1u8);
            match socket {
                Some((path, echo)) => {
                    out.push(1u8);
                    push_bytes(&mut out, path);
                    push_u32(&mut out, *echo);
                },
                None => {
                    out.push(0u8);
                },
            }
            push_bytes(&mut out, label);
            push_bytes(&mut out, parent);
            proof {
                assert(out@ =~= spec_encode(*p));
            }
        },
        ConnPacket::ApprConn { echo } => {
            out.push(2u8);
            push_u32(&mut out, *echo);
            proof {
                assert(out@ =~= spec_encode(*p));
            }
        },
        ConnPacket::RejConn { echo, reason } => {
            out.push(3u8);
            push_u32(&mut out, *echo);
            match reason {
                RejReason::Id => out.push(0u8),
                RejReason::Parent => out.push(1u8),
            }
            proof {
                assert(out@ =~= spec_encode(*p));
            }
        },
        ConnPacket::Terminate => {
            out.push(4u8);
            proof {
                assert(out@ =~= spec_encode(*p));
            }
        },
    }
    out
}

/// Read four little-endian bytes at `pos`.
fn read_u32(data: &Vec<u8>, pos: usize) -> (r: Option<u32>)
    ensures
        match r {
            Some(x) => pos + 4 <= data@.len() && enc_u32(x) == data@.subrange(
                pos as int,
                pos as int + 4,
            ),
            None => pos + 4 > data@.len(),
        },
{
    if pos >= data.len() || data.len() - pos < 4 {
        return None;
    }
    let b0 = data[pos];
    let b1 = data[pos + 1];
    let b2 = data[pos + 2];
    let b3 = data[pos + 3];
    let x: u32 = (b0 as u32) | ((b1 as u32) << 8) | ((b2 as u32) << 16) | ((b3 as u32) << 24);
    proof {
        assert((x & 0xff) as u8 == b0 && ((x >> 8) & 0xff) as u8 == b1 && ((x >> 16) & 0xff) as u8
            == b2 && ((x >> 24) & 0xff) as u8 == b3) by (bit_vector)
            requires
                x == (b0 as u32) | ((b1 as u32) << 8) | ((b2 as u32) << 16) | (
                (b3 as u32) << 24),
        ;
        assert(enc_u32(x) =~= data@.subrange(pos as int, pos as int + 4));
    }
    Some(x)
}

/// Read a length-prefixed byte string at `pos`; returns the string and the
/// position after it. When nothing is returned, no byte string the format
/// can carry is encoded at `pos`.
fn read_bytes(data: &Vec<u8>, pos: usize) -> (r: Option<(Vec<u8>, usize)>)
    ensures
        match r {
            Some(p) => {
                &&& pos <= p.1 <= data@.len()
                &&& p.0@.len() < 0x100000000
                &&& p.1 == pos + 4 + p.0@.len()
                &&& enc_bytes(p.0@) == data@.subrange(pos as int, p.1 as int)
            },
            None => forall|b: Seq<u8>|
                b.len() < 0x100000000 && pos + 4 + b.len() <= data@.len() ==> #[trigger]
                enc_bytes(b) != data@.subrange(pos as int, pos as int + 4 + b.len() as int),
        },
{
    let len32 = match read_u32(data, pos) {
        Some(x) => x,
        None => {
            proof {
                assert forall|b: Seq<u8>|
                    b.len() < 0x100000000 && pos + 4 + b.len() <= data@.len() implies #[trigger]
                    enc_bytes(b) != data@.subrange(
                    pos as int,
                    pos as int + 4 + b.len() as int,
                ) by {
                    assert(pos + 4 > data@.len());
                }
            }
            return None;
        },
    };
    let len = len32 as usize;
    if data.len() - (pos + 4) < len {
        proof {
            assert forall|b: Seq<u8>|
                b.len() < 0x100000000 && pos + 4 + b.len() <= data@.len() implies #[trigger]
                enc_bytes(b) != data@.subrange(pos as int, pos as int + 4 + b.len() as int) by {
                if enc_bytes(b) == data@.subrange(pos as int, pos as int + 4 + b.len() as int) {
                    assert(enc_u32(b.len() as u32) =~= data@.subrange(
                        pos as int,
                        pos as int + 4,
                    )) by {
                        assert forall|i: int| #![trigger enc_u32(b.len() as u32)[i]]
                            0 <= i < 4 implies enc_u32(b.len() as u32)[i] == data@.subrange(
                            pos as int,
                            pos as int + 4,
                        )[i] by {
                            assert(enc_bytes(b)[i] == enc_u32(b.len() as u32)[i]);
                            assert(data@.subrange(
                                pos as int,
                                pos as int + 4 + b.len() as int,
                            )[i] == data@[pos + i]);
                        }
                    }
                    lemma_enc_u32_inj(b.len() as u32, len32);
                    assert(b.len() == len32 as nat);
                    assert(false);
                }
            }
        }
        return None;
    }
    let start = pos + 4;
    let mut out: Vec<u8> = Vec::new();
    let mut i: usize = 0;
    while i < len
        invariant
            start + len <= data@.len(),
            data@.len() <= usize::MAX,
            0 <= i <= len,
            out@ == data@.subrange(start as int, start as int + i as int),
        decreases len - i,
    {
        proof {
            assert(start + i < data@.len());
        }
        let b = data[start + i];
        out.push(b);
        proof {
            assert(out@ =~= data@.subrange(start as int, start as int + i + 1));
        }
        i = i + 1;
    }
    proof {
        assert(out@.len() == len);
        assert(len32 == out@.len() as u32);
        assert(enc_bytes(out@) =~= data@.subrange(pos as int, (start + len) as int));
    }
    Some((out, start + len))
}

/// Decode one packet. Whatever is returned re-encodes to exactly the bytes
/// given; and whenever the bytes are the encoding of a well-formed packet,
/// one is returned — so a malformed or trailing-garbage frame, and only
/// such a frame, yields nothing.
#[verifier::rlimit(100)]
#[verifier::spinoff_prover]
pub fn decode_packet(data: &Vec<u8>) -> (r: Option<ConnPacket>)
    ensures
        r matches Some(p) ==> spec_encode(p) == data@ && packet_wf_v(p@),
        forall|v: PacketV|
            packet_wf_v(v) && (#[trigger] spec_encode_v(v)) == data@ ==> r is Some,
{
    if data.len() == 0 {
        proof {
            assert forall|v: PacketV|
                !(packet_wf_v(v) && (#[trigger] spec_encode_v(v)) == data@) by {
                lemma_encode_shape(v);
            }
        }
        return None;
    }
    let tag = data[0];
    if tag == 1 {
        decode_reqconn(data)
    } else if tag == 2 {
        let echo = match read_u32(data, 1) {
            Some(x) => x,
            None => {
                proof {
                    assert forall|v: PacketV|
                        !(packet_wf_v(v) && (#[trigger] spec_encode_v(v)) == data@) by {
                        lemma_encode_shape(v);
                    }
                }
                return None;
            },
        };
        if data.len() != 5 {
            proof {
                assert forall|v: PacketV|
                    !(packet_wf_v(v) && (#[trigger] spec_encode_v(v)) == data@) by {
                    lemma_encode_shape(v);
                }
            }
            return None;
        }
        let r = ConnPacket::ApprConn { echo };
        proof {
            assert(spec_encode(r) =~= data@);
        }
        Some(r)
    } else if tag == 3 {
        let echo = match read_u32(data, 1) {
            Some(x) => x,
            None => {
                proof {
                    assert forall|v: PacketV|
                        !(packet_wf_v(v) && (#[trigger] spec_encode_v(v)) == data@) by {
                        lemma_encode_shape(v);
                    }
                }
                return None;
            },
        };
        if data.len() != 6 {
            proof {
                assert forall|v: PacketV|
                    !(packet_wf_v(v) && (#[trigger] spec_encode_v(v)) == data@) by {
                    lemma_encode_shape(v);
                }
            }
            return None;
        }
        let reason = if data[5] == 0 {
            RejReason::Id
        } else if data[5] == 1 {
            RejReason::Parent
        } else {
            proof {
                assert forall|v: PacketV|
                    !(packet_wf_v(v) && (#[trigger] spec_encode_v(v)) == data@) by {
                    lemma_encode_shape(v);
                }
            }
            return None;
        };
        let r = ConnPacket::RejConn { echo, reason };
        proof {
            assert(spec_encode(r) =~= data@);
        }
        Some(r)
    } else if tag == 4 {
        if data.len() != 1 {
            proof {
                assert forall|v: PacketV|
                    !(packet_wf_v(v) && (#[trigger] spec_encode_v(v)) == data@) by {
                    lemma_encode_shape(v);
                }
            }
            return None;
        }
        proof {
            assert(spec_encode(ConnPacket::Terminate) =~= data@);
        }
        Some(ConnPacket::Terminate)
    } else {
        proof {
            assert forall|v: PacketV|
                !(packet_wf_v(v) && (#[trigger] spec_encode_v(v)) == data@) by {
                lemma_encode_shape(v);
            }
        }
        None
    }
}

/// Decode a connection request; the frame's first byte is already known to
/// carry the request tag.
#[verifier::rlimit(100)]
#[verifier::spinoff_prover]
fn decode_reqconn(data: &Vec<u8>) -> (r: Option<ConnPacket>)
    requires
        data@.len() >= 1,
        data@[0] == 1,
    ensures
        r matches Some(p) ==> spec_encode(p) == data@ && packet_wf_v(p@),
        forall|v: PacketV|
            packet_wf_v(v) && (#[trigger] spec_encode_v(v)) == data@ ==> r is Some,
{
    if data.len() < 2 {
        proof {
            assert forall|v: PacketV|
                !(packet_wf_v(v) && (#[trigger] spec_encode_v(v)) == data@) by {
                lemma_encode_shape(v);
            }
        }
        return None;
    }
    let has_socket = data[1];
    if has_socket != 0 && has_socket != 1 {
        proof {
            assert forall|v: PacketV|
                !(packet_wf_v(v) && (#[trigger] spec_encode_v(v)) == data@) by {
                lemma_encode_shape(v);
                if packet_wf_v(v) && spec_encode_v(v) == data@ {
                    lemma_reqconn_layout(data@, v);
                }
            }
        }
        return None;
    }
    let mut pos: usize = 2;
    let socket: Option<(Vec<u8>, u32)> = if has_socket == 1 {
        let (path, p2) = match read_bytes(data, 2) {
            Some(x) => x,
            None => {
                proof {
                    assert forall|v: PacketV|
                        !(packet_wf_v(v) && (#[trigger] spec_encode_v(v)) == data@) by {
                        lemma_encode_shape(v);
                        if packet_wf_v(v) && spec_encode_v(v) == data@ {
                            lemma_reqconn_layout(data@, v);
                            match v {
                                PacketV::ReqConn { socket, label, parent } => {
                                    match socket {
                                        Option::Some(s) => {
                                            assert(enc_bytes(s.0) == data@.subrange(
                                                2,
                                                2 + 4 + s.0.len() as int,
                                            ));
                                            assert(false);
                                        },
                                        Option::None => {
                                            assert(data@[1] == 0);
                                        },
                                    }
                                },
                                _ => {
                                },
                            }
                        }
                    }
                }
                return None;
            },
        };
        let echo = match read_u32(data, p2) {
            Some(x) => x,
            None => {
                proof {
                    assert forall|v: PacketV|
                        !(packet_wf_v(v) && (#[trigger] spec_encode_v(v)) == data@) by {
                        lemma_encode_shape(v);
                        if packet_wf_v(v) && spec_encode_v(v) == data@ {
                            lemma_reqconn_layout(data@, v);
                            match v {
                                PacketV::ReqConn { socket, label, parent } => {
                                    match socket {
                                        Option::Some(s) => {
                                            lemma_enc_bytes_agree(data@, 2, path@, s.0);
                                            assert(p2 == 2 + 4 + s.0.len());
                                            assert(p2 + 4 <= data@.len());
                                            assert(false);
                                        },
                                        Option::None => {
                                            assert(data@[1] == 0);
                                        },
                                    }
                                },
                                _ => {
                                },
                            }
                        }
                    }
                }
                return None;
            },
        };
        pos = p2 + 4;
        Some((path, echo))
    } else {
        None
    };
    let ghost sockv: Option<(Seq<u8>, u32)> = match &socket {
        Option::Some(s) => Some((s.0@, s.1)),
        Option::None => None,
    };
    proof {
        assert(match sockv {
            Option::Some(s) => {
                &&& data@[1] == 1
                &&& s.0.len() < 0x100000000
                &&& pos == 2 + 4 + s.0.len() + 4
                &&& pos <= data@.len()
                &&& enc_bytes(s.0) == data@.subrange(2, 2 + 4 + s.0.len() as int)
                &&& enc_u32(s.1) == data@.subrange(
                    2 + 4 + s.0.len() as int,
                    2 + 4 + s.0.len() as int + 4,
                )
            },
            Option::None => data@[1] == 0 && pos == 2,
        });
    }
    let (label, p3) = match read_bytes(data, pos) {
        Some(x) => x,
        None => {
            proof {
                assert forall|v: PacketV|
                    !(packet_wf_v(v) && (#[trigger] spec_encode_v(v)) == data@) by {
                    lemma_encode_shape(v);
                    if packet_wf_v(v) && spec_encode_v(v) == data@ {
                        lemma_reqconn_layout(data@, v);
                        match v {
                            PacketV::ReqConn { socket: vs, label: vl, parent: vp } => {
                                match (sockv, vs) {
                                    (Option::Some(s), Option::Some(t)) => {
                                        lemma_enc_bytes_agree(data@, 2, s.0, t.0);
                                        assert(enc_bytes(vl) == data@.subrange(
                                            pos as int,
                                            pos as int + 4 + vl.len() as int,
                                        ));
                                        assert(false);
                                    },
                                    (Option::None, Option::None) => {
                                        assert(enc_bytes(vl) == data@.subrange(
                                            pos as int,
                                            pos as int + 4 + vl.len() as int,
                                        ));
                                        assert(false);
                                    },
                                    _ => {
                                        assert(false);
                                    },
                                }
                            },
                            _ => {
                            },
                        }
                    }
                }
            }
            return None;
        },
    };
    let (parent, p4) = match read_bytes(data, p3) {
        Some(x) => x,
        None => {
            proof {
                assert forall|v: PacketV|
                    !(packet_wf_v(v) && (#[trigger] spec_encode_v(v)) == data@) by {
                    lemma_encode_shape(v);
                    if packet_wf_v(v) && spec_encode_v(v) == data@ {
                        lemma_reqconn_layout(data@, v);
                        match v {
                            PacketV::ReqConn { socket: vs, label: vl, parent: vp } => {
                                match (sockv, vs) {
                                    (Option::Some(s), Option::Some(t)) => {
                                        lemma_enc_bytes_agree(data@, 2, s.0, t.0);
                                        lemma_enc_bytes_agree(data@, pos as int, label@, vl);
                                        assert(p3 == pos + 4 + vl.len());
                                        assert(enc_bytes(vp) == data@.subrange(
                                            p3 as int,
                                            p3 as int + 4 + vp.len() as int,
                                        ));
                                        assert(false);
                                    },
                                    (Option::None, Option::None) => {
                                        lemma_enc_bytes_agree(data@, pos as int, label@, vl);
                                        assert(p3 == pos + 4 + vl.len());
                                        assert(enc_bytes(vp) == data@.subrange(
                                            p3 as int,
                                            p3 as int + 4 + vp.len() as int,
                                        ));
                                        assert(false);
                                    },
                                    _ => {
                                        assert(false);
                                    },
                                }
                            },
                            _ => {
                            },
                        }
                    }
                }
            }
            return None;
        },
    };
    if p4 != data.len() {
        proof {
            assert forall|v: PacketV|
                !(packet_wf_v(v) && (#[trigger] spec_encode_v(v)) == data@) by {
                lemma_encode_shape(v);
                if packet_wf_v(v) && spec_encode_v(v) == data@ {
                    lemma_reqconn_layout(data@, v);
                    match v {
                        PacketV::ReqConn { socket: vs, label: vl, parent: vp } => {
                            match (sockv, vs) {
                                (Option::Some(s), Option::Some(t)) => {
                                    lemma_enc_bytes_agree(data@, 2, s.0, t.0);
                                    lemma_enc_bytes_agree(data@, pos as int, label@, vl);
                                    assert(p3 == pos + 4 + vl.len());
                                    lemma_enc_bytes_agree(data@, p3 as int, parent@, vp);
                                    assert(p4 == p3 + 4 + vp.len());
                                    assert(p4 == data@.len());
                                    assert(false);
                                },
                                (Option::None, Option::None) => {
                                    lemma_enc_bytes_agree(data@, pos as int, label@, vl);
                                    assert(p3 == pos + 4 + vl.len());
                                    lemma_enc_bytes_agree(data@, p3 as int, parent@, vp);
                                    assert(p4 == p3 + 4 + vp.len());
                                    assert(p4 == data@.len());
                                    assert(false);
                                },
                                _ => {
                                    assert(false);
                                },
                            }
                        },
                        _ => {
                        },
                    }
                }
            }
        }
        return None;
    }
    let r = ConnPacket::ReqConn { socket, label, parent };
    proof {
        assert(spec_encode(r) =~= data@);
    }
    Some(r)
}

} // verus!
