//! The wire protocol: the closed set of message shapes exchanged between
//! nodes and from client to node, a deterministic byte encoding for them,
//! and length-delimited framing with a bounded frame size.
//!
//! The encoding is self-describing: one tag byte selects the variant, each
//! string field is a 4-byte big-endian byte count followed by that many
//! bytes of UTF-8, a port is 2 bytes big-endian, and an optional string is
//! a 1-byte presence flag followed by the string if present. A frame is a
//! 4-byte big-endian payload length followed by the payload.

use vstd::prelude::*;
use vstd::string::StrSliceExecFns;
use vstd::utf8::{decode_utf8, encode_utf8, encode_utf8_decode_utf8, encode_utf8_valid_utf8,
    valid_utf8};

verus! {

/// A reachable address of a node: a host name or literal plus a port.
#[derive(Debug, PartialEq, Eq)]
pub struct Address {
    pub host: String,
    pub port: u16,
}

/// Mathematical model of an [`Address`].
pub struct AddressModel {
    pub host: Seq<char>,
    pub port: u16,
}

impl View for Address {
    type V = AddressModel;

    open spec fn view(&self) -> AddressModel {
        AddressModel { host: self.host@, port: self.port }
    }
}

impl Address {
    /// An identical copy of this address.
    pub fn duplicate(&self) -> (r: Address)
        ensures
            r@ == self@,
    {
        Address { host: self.host.clone(), port: self.port }
    }
}

/// One message of the wire protocol.
#[derive(Debug, PartialEq, Eq)]
pub enum WireMessage {
    /// Discovery announcement: the sender's identity and reachable address.
    Handshake { node_identity: String, reachable_address: Address },
    /// Acknowledgment of a Handshake.
    Greeting,
    /// Periodic liveness probe over the reliable channel.
    Heartbeat,
    /// Acknowledgment of a Heartbeat.
    HeartbeatAck,
    /// Client request: bind `key` to `value`.
    SetValue { key: String, value: String },
    /// Client request: read the value bound to `key`.
    GetValue { key: String },
    /// Reply to a client request; `None` means the key is absent.
    ValueResponse { value: Option<String> },
    /// Replication of one write to a peer; never re-propagated.
    Sync { key: String, value: String },
}

/// Mathematical model of a [`WireMessage`].
pub enum MessageModel {
    Handshake { node_identity: Seq<char>, host: Seq<char>, port: u16 },
    Greeting,
    Heartbeat,
    HeartbeatAck,
    SetValue { key: Seq<char>, value: Seq<char> },
    GetValue { key: Seq<char> },
    ValueResponse { value: Option<Seq<char>> },
    Sync { key: Seq<char>, value: Seq<char> },
}

impl View for WireMessage {
    type V = MessageModel;

    open spec fn view(&self) -> MessageModel {
        match self {
            WireMessage::Handshake { node_identity, reachable_address } => MessageModel::Handshake {
                node_identity: node_identity@,
                host: reachable_address.host@,
                port: reachable_address.port,
            },
            WireMessage::Greeting => MessageModel::Greeting,
            WireMessage::Heartbeat => MessageModel::Heartbeat,
            WireMessage::HeartbeatAck => MessageModel::HeartbeatAck,
            WireMessage::SetValue { key, value } => MessageModel::SetValue {
                key: key@,
                value: value@,
            },
            WireMessage::GetValue { key } => MessageModel::GetValue { key: key@ },
            WireMessage::ValueResponse { value } => MessageModel::ValueResponse {
                value: match value {
                    Option::Some(v) => Option::Some(v@),
                    Option::None => Option::None,
                },
            },
            WireMessage::Sync { key, value } => MessageModel::Sync { key: key@, value: value@ },
        }
    }
}

/// Why a byte buffer was rejected: the frame or a field ended early, the
/// declared payload length exceeds the bound, the tag byte names no
/// variant, or a field does not hold what its type demands.
#[derive(Clone, Copy, Debug, PartialEq, Eq, Structural)]
pub enum ProtocolError {
    Truncated,
    Oversized,
    UnknownTag,
    Malformed,
}

/// The four big-endian bytes of `n`.
pub open spec fn enc_u32(n: u32) -> Seq<u8> {
    seq![(n >> 24) as u8, (n >> 16) as u8, (n >> 8) as u8, n as u8]
}

/// The value of four big-endian bytes.
pub open spec fn dec_u32(b0: u8, b1: u8, b2: u8, b3: u8) -> u32 {
    ((b0 as u32) << 24) | ((b1 as u32) << 16) | ((b2 as u32) << 8) | (b3 as u32)
}

/// The two big-endian bytes of `p`.
pub open spec fn enc_u16(p: u16) -> Seq<u8> {
    seq![(p >> 8) as u8, p as u8]
}

/// The value of two big-endian bytes.
pub open spec fn dec_u16(b0: u8, b1: u8) -> u16 {
    ((b0 as u16) << 8) | (b1 as u16)
}

/// Reading back the four big-endian bytes of `n` yields `n`.
pub proof fn lemma_u32_round_trip(n: u32)
    ensures
        dec_u32((n >> 24) as u8, (n >> 16) as u8, (n >> 8) as u8, n as u8) == n,
{
    assert((((((n >> 24) as u8) as u32) << 24) | ((((n >> 16) as u8) as u32) << 16) | ((((n
        >> 8) as u8) as u32) << 8) | ((n as u8) as u32)) == n) by (bit_vector);
}

/// Reading back the two big-endian bytes of `p` yields `p`.
pub proof fn lemma_u16_round_trip(p: u16)
    ensures
        dec_u16((p >> 8) as u8, p as u8) == p,
{
    assert(((((p >> 8) as u8) as u16) << 8 | ((p as u8) as u16)) == p) by (bit_vector);
}

/// Appends the four big-endian bytes of `n` to `out`.
fn push_u32_be(out: &mut Vec<u8>, n: u32)
    ensures
        final(out)@ == old(out)@ + enc_u32(n),
{
    out.push((n >> 24) as u8);
    out.push((n >> 16) as u8);
    out.push((n >> 8) as u8);
    out.push(n as u8);
    assert(out@ =~= old(out)@ + enc_u32(n));
}

/// Appends the two big-endian bytes of `p` to `out`.
fn push_u16_be(out: &mut Vec<u8>, p: u16)
    ensures
        final(out)@ == old(out)@ + enc_u16(p),
{
    out.push((p >> 8) as u8);
    out.push(p as u8);
    assert(out@ =~= old(out)@ + enc_u16(p));
}

/// The value of four big-endian bytes.
fn u32_from_be(b0: u8, b1: u8, b2: u8, b3: u8) -> (n: u32)
    ensures
        n == dec_u32(b0, b1, b2, b3),
{
    ((b0 as u32) << 24) | ((b1 as u32) << 16) | ((b2 as u32) << 8) | (b3 as u32)
}

/// The value of two big-endian bytes.
fn u16_from_be(b0: u8, b1: u8) -> (p: u16)
    ensures
        p == dec_u16(b0, b1),
{
    ((b0 as u16) << 8) | (b1 as u16)
}

/// The four bytes that announce a length: big-endian when it fits 32 bits.
/// Lengths beyond 32 bits never arise in an accepted payload, whose size is
/// bounded by [`crate::MAX_FRAME_LEN`].
pub open spec fn enc_len(n: nat) -> Seq<u8> {
    if n < 0x100000000 {
        enc_u32(n as u32)
    } else {
        seq![0u8, 0u8, 0u8, 0u8]
    }
}

/// The encoding of one string field: byte count, then UTF-8 bytes.
pub open spec fn enc_str(s: Seq<char>) -> Seq<u8> {
    enc_len(encode_utf8(s).len()) + encode_utf8(s)
}

/// The encoding of an optional string field: presence flag, then the string.
pub open spec fn enc_opt_str(v: Option<Seq<char>>) -> Seq<u8> {
    match v {
        Option::None => seq![0u8],
        Option::Some(s) => seq![1u8] + enc_str(s),
    }
}

/// The payload bytes of a message: a tag byte followed by its fields.
pub open spec fn spec_encode(m: MessageModel) -> Seq<u8> {
    match m {
        MessageModel::Handshake { node_identity, host, port } => seq![1u8] + enc_str(node_identity)
            + enc_str(host) + enc_u16(port),
        MessageModel::Greeting => seq![2u8],
        MessageModel::Heartbeat => seq![3u8],
        MessageModel::HeartbeatAck => seq![4u8],
        MessageModel::SetValue { key, value } => seq![5u8] + enc_str(key) + enc_str(value),
        MessageModel::GetValue { key } => seq![6u8] + enc_str(key),
        MessageModel::ValueResponse { value } => seq![7u8] + enc_opt_str(value),
        MessageModel::Sync { key, value } => seq![8u8] + enc_str(key) + enc_str(value),
    }
}

/// A whole frame: the payload length announced in four bytes, then the payload.
pub open spec fn spec_frame(payload: Seq<u8>) -> Seq<u8> {
    enc_len(payload.len()) + payload
}

/// Every string field of `m` has a byte count that four bytes can announce.
pub open spec fn msg_wf(m: MessageModel) -> bool {
    match m {
        MessageModel::Handshake { node_identity, host, port } => encode_utf8(
            node_identity,
        ).len() < 0x100000000 && encode_utf8(host).len() < 0x100000000,
        MessageModel::Greeting => true,
        MessageModel::Heartbeat => true,
        MessageModel::HeartbeatAck => true,
        MessageModel::SetValue { key, value } => encode_utf8(key).len() < 0x100000000
            && encode_utf8(value).len() < 0x100000000,
        MessageModel::GetValue { key } => encode_utf8(key).len() < 0x100000000,
        MessageModel::ValueResponse { value } => match value {
            Option::Some(s) => encode_utf8(s).len() < 0x100000000,
            Option::None => true,
        },
        MessageModel::Sync { key, value } => encode_utf8(key).len() < 0x100000000 && encode_utf8(
            value,
        ).len() < 0x100000000,
    }
}

/// Reading one string field at offset `i`: on success, the characters and
/// the offset just past the field.
pub open spec fn spec_read_str(b: Seq<u8>, i: int) -> Result<(Seq<char>, int), ProtocolError> {
    if i + 4 > b.len() {
        Result::Err(ProtocolError::Truncated)
    } else {
        let n = dec_u32(b[i], b[i + 1], b[i + 2], b[i + 3]) as int;
        if i + 4 + n > b.len() {
            Result::Err(ProtocolError::Truncated)
        } else if !valid_utf8(b.subrange(i + 4, i + 4 + n)) {
            Result::Err(ProtocolError::Malformed)
        } else {
            Result::Ok((decode_utf8(b.subrange(i + 4, i + 4 + n)), i + 4 + n))
        }
    }
}

/// The message that payload bytes `b` hold, or why they hold none. The
/// payload must be consumed exactly: trailing bytes are malformed.
pub open spec fn spec_decode(b: Seq<u8>) -> Result<MessageModel, ProtocolError> {
    if b.len() == 0 {
        Result::Err(ProtocolError::Truncated)
    } else if b[0] == 1 {
        match spec_read_str(b, 1) {
            Result::Err(e) => Result::Err(e),
            Result::Ok((node_identity, i)) => match spec_read_str(b, i) {
                Result::Err(e) => Result::Err(e),
                Result::Ok((host, j)) => if b.len() < j + 2 {
                    Result::Err(ProtocolError::Truncated)
                } else if b.len() > j + 2 {
                    Result::Err(ProtocolError::Malformed)
                } else {
                    Result::Ok(
                        MessageModel::Handshake {
                            node_identity,
                            host,
                            port: dec_u16(b[j], b[j + 1]),
                        },
                    )
                },
            },
        }
    } else if b[0] == 2 {
        if b.len() == 1 {
            Result::Ok(MessageModel::Greeting)
        } else {
            Result::Err(ProtocolError::Malformed)
        }
    } else if b[0] == 3 {
        if b.len() == 1 {
            Result::Ok(MessageModel::Heartbeat)
        } else {
            Result::Err(ProtocolError::Malformed)
        }
    } else if b[0] == 4 {
        if b.len() == 1 {
            Result::Ok(MessageModel::HeartbeatAck)
        } else {
            Result::Err(ProtocolError::Malformed)
        }
    } else if b[0] == 5 {
        match spec_read_two(b) {
            Result::Err(e) => Result::Err(e),
            Result::Ok((key, value)) => Result::Ok(MessageModel::SetValue { key, value }),
        }
    } else if b[0] == 6 {
        match spec_read_str(b, 1) {
            Result::Err(e) => Result::Err(e),
            Result::Ok((key, i)) => if i == b.len() {
                Result::Ok(MessageModel::GetValue { key })
            } else {
                Result::Err(ProtocolError::Malformed)
            },
        }
    } else if b[0] == 7 {
        if b.len() < 2 {
            Result::Err(ProtocolError::Truncated)
        } else if b[1] == 0 {
            if b.len() == 2 {
                Result::Ok(MessageModel::ValueResponse { value: Option::None })
            } else {
                Result::Err(ProtocolError::Malformed)
            }
        } else if b[1] == 1 {
            match spec_read_str(b, 2) {
                Result::Err(e) => Result::Err(e),
                Result::Ok((s, i)) => if i == b.len() {
                    Result::Ok(MessageModel::ValueResponse { value: Option::Some(s) })
                } else {
                    Result::Err(ProtocolError::Malformed)
                },
            }
        } else {
            Result::Err(ProtocolError::Malformed)
        }
    } else if b[0] == 8 {
        match spec_read_two(b) {
            Result::Err(e) => Result::Err(e),
            Result::Ok((key, value)) => Result::Ok(MessageModel::Sync { key, value }),
        }
    } else {
        Result::Err(ProtocolError::UnknownTag)
    }
}

/// Reading two consecutive string fields after the tag byte, consuming the
/// payload exactly.
pub open spec fn spec_read_two(b: Seq<u8>) -> Result<(Seq<char>, Seq<char>), ProtocolError> {
    match spec_read_str(b, 1) {
        Result::Err(e) => Result::Err(e),
        Result::Ok((first, i)) => match spec_read_str(b, i) {
            Result::Err(e) => Result::Err(e),
            Result::Ok((second, j)) => if j == b.len() {
                Result::Ok((first, second))
            } else {
                Result::Err(ProtocolError::Malformed)
            },
        },
    }
}

/// `r` returns exactly what the decoding function `s` describes: the same
/// message up to its model, or the same error.
pub open spec fn decode_models(
    r: Result<WireMessage, ProtocolError>,
    s: Result<MessageModel, ProtocolError>,
) -> bool {
    match (r, s) {
        (Result::Ok(m), Result::Ok(mm)) => m@ == mm,
        (Result::Err(e), Result::Err(ee)) => e == ee,
        _ => false,
    }
}

/// Appends all of `bytes` to `out`.
fn append_bytes(out: &mut Vec<u8>, bytes: &Vec<u8>)
    ensures
        final(out)@ == old(out)@ + bytes@,
{
    let mut k: usize = 0;
    while k < bytes.len()
        invariant
            k <= bytes@.len(),
            out@ == old(out)@ + bytes@.subrange(0, k as int),
        decreases bytes@.len() - k,
    {
        out.push(bytes[k]);
        proof {
            assert(bytes@.subrange(0, k + 1) =~= bytes@.subrange(0, k as int).push(
                bytes@[k as int],
            ));
            assert(out@ =~= old(out)@ + bytes@.subrange(0, k + 1));
        }
        k = k + 1;
    }
    assert(bytes@.subrange(0, bytes@.len() as int) =~= bytes@);
}

/// Appends the encoding of one string field to `out`, unless the string's
/// byte count alone already exceeds the frame bound.
fn push_str_field(out: &mut Vec<u8>, s: &String) -> (ok: bool)
    ensures
        ok ==> final(out)@ == old(out)@ + enc_str(s@) && encode_utf8(s@).len()
            <= crate::MAX_FRAME_LEN,
        !ok ==> final(out)@ == old(out)@ && encode_utf8(s@).len() > crate::MAX_FRAME_LEN,
{
    let bytes = s.as_str().as_bytes_vec();
    if bytes.len() > crate::MAX_FRAME_LEN {
        return false;
    }
    push_u32_be(out, bytes.len() as u32);
    append_bytes(out, &bytes);
    proof {
        assert(enc_len(encode_utf8(s@).len()) == enc_u32(bytes@.len() as u32));
        assert(out@ =~= old(out)@ + enc_str(s@));
    }
    true
}

/// Encodes `m` as payload bytes. Succeeds exactly when the payload fits
/// [`crate::MAX_FRAME_LEN`]; a larger message is refused as oversized.
pub fn encode_payload(m: &WireMessage) -> (r: Result<Vec<u8>, ProtocolError>)
    ensures
        r is Ok <==> spec_encode(m@).len() <= crate::MAX_FRAME_LEN,
        r matches Ok(v) ==> v@ == spec_encode(m@),
        r matches Err(e) ==> e == ProtocolError::Oversized,
{
    let mut out: Vec<u8> = Vec::new();
    match m {
        WireMessage::Handshake { node_identity, reachable_address } => {
            out.push(1u8);
            if !push_str_field(&mut out, node_identity) {
                return Result::Err(ProtocolError::Oversized);
            }
            if !push_str_field(&mut out, &reachable_address.host) {
                return Result::Err(ProtocolError::Oversized);
            }
            push_u16_be(&mut out, reachable_address.port);
            assert(out@ =~= spec_encode(m@));
        },
        WireMessage::Greeting => {
            out.push(2u8);
            assert(out@ =~= spec_encode(m@));
        },
        WireMessage::Heartbeat => {
            out.push(3u8);
            assert(out@ =~= spec_encode(m@));
        },
        WireMessage::HeartbeatAck => {
            out.push(4u8);
            assert(out@ =~= spec_encode(m@));
        },
        WireMessage::SetValue { key, value } => {
            out.push(5u8);
            if !push_str_field(&mut out, key) {
                return Result::Err(ProtocolError::Oversized);
            }
            if !push_str_field(&mut out, value) {
                return Result::Err(ProtocolError::Oversized);
            }
            assert(out@ =~= spec_encode(m@));
        },
        WireMessage::GetValue { key } => {
            out.push(6u8);
            if !push_str_field(&mut out, key) {
                return Result::Err(ProtocolError::Oversized);
            }
            assert(out@ =~= spec_encode(m@));
        },
        WireMessage::ValueResponse { value } => {
            out.push(7u8);
            match value {
                Option::None => {
                    out.push(0u8);
                },
                Option::Some(v) => {
                    out.push(1u8);
                    if !push_str_field(&mut out, v) {
                        return Result::Err(ProtocolError::Oversized);
                    }
                },
            }
            assert(out@ =~= spec_encode(m@));
        },
        WireMessage::Sync { key, value } => {
            out.push(8u8);
            if !push_str_field(&mut out, key) {
                return Result::Err(ProtocolError::Oversized);
            }
            if !push_str_field(&mut out, value) {
                return Result::Err(ProtocolError::Oversized);
            }
            assert(out@ =~= spec_encode(m@));
        },
    }
    if out.len() > crate::MAX_FRAME_LEN {
        return Result::Err(ProtocolError::Oversized);
    }
    Result::Ok(out)
}

/// Encodes `m` as one complete frame: the payload length in four bytes,
/// then the payload. Succeeds exactly when [`encode_payload`] does.
pub fn encode_frame(m: &WireMessage) -> (r: Result<Vec<u8>, ProtocolError>)
    ensures
        r is Ok <==> spec_encode(m@).len() <= crate::MAX_FRAME_LEN,
        r matches Ok(v) ==> v@ == spec_frame(spec_encode(m@)),
        r matches Err(e) ==> e == ProtocolError::Oversized,
{
    match encode_payload(m) {
        Result::Err(e) => Result::Err(e),
        Result::Ok(payload) => {
            let mut out: Vec<u8> = Vec::new();
            push_u32_be(&mut out, payload.len() as u32);
            append_bytes(&mut out, &payload);
            proof {
                assert(enc_len(spec_encode(m@).len()) == enc_u32(payload@.len() as u32));
                assert(out@ =~= spec_frame(spec_encode(m@)));
            }
            Result::Ok(out)
        },
    }
}

/// A copy of the bytes of `b` from `from` up to `to`.
fn vec_range_copy(b: &Vec<u8>, from: usize, to: usize) -> (r: Vec<u8>)
    requires
        from <= to <= b@.len(),
    ensures
        r@ == b@.subrange(from as int, to as int),
{
    let mut r: Vec<u8> = Vec::new();
    let mut j: usize = from;
    while j < to
        invariant
            from <= j <= to <= b@.len(),
            r@ == b@.subrange(from as int, j as int),
        decreases to - j,
    {
        r.push(b[j]);
        proof {
            assert(b@.subrange(from as int, j + 1) =~= b@.subrange(from as int, j as int).push(
                b@[j as int],
            ));
        }
        j = j + 1;
    }
    r
}

/// Relies on `String::from_utf8`: it succeeds exactly on bytes that are
/// valid UTF-8, and then yields the characters those bytes encode.
#[verifier::external_body]
fn bytes_to_string(v: Vec<u8>) -> (r: Option<String>)
    ensures
        r is Some <==> valid_utf8(v@),
        r matches Some(s) ==> s@ == decode_utf8(v@),
{
    String::from_utf8(v).ok()
}

/// Reads one string field of the payload `b` at offset `i`.
fn read_str(b: &Vec<u8>, i: usize) -> (r: Result<(String, usize), ProtocolError>)
    requires
        i <= b@.len(),
    ensures
        r matches Ok(p) ==> spec_read_str(b@, i as int) == Result::Ok::<(Seq<char>, int),
            ProtocolError,
        >((p.0@, p.1 as int)) && i <= p.1 <= b@.len(),
        r matches Err(e) ==> spec_read_str(b@, i as int) == Result::Err::<(Seq<char>, int),
            ProtocolError,
        >(e),
{
    if b.len() - i < 4 {
        return Result::Err(ProtocolError::Truncated);
    }
    let n32 = u32_from_be(b[i], b[i + 1], b[i + 2], b[i + 3]);
    let n = n32 as usize;
    if b.len() - (i + 4) < n {
        return Result::Err(ProtocolError::Truncated);
    }
    let bytes = vec_range_copy(b, i + 4, i + 4 + n);
    match bytes_to_string(bytes) {
        Option::Some(s) => Result::Ok((s, i + 4 + n)),
        Option::None => Result::Err(ProtocolError::Malformed),
    }
}

/// Decodes payload bytes into the message they hold. Returns exactly what
/// [`spec_decode`] describes: the message, or the error naming the fault.
/// Never panics; a fault in one payload is confined to its `Err`.
pub fn decode_payload(b: &Vec<u8>) -> (r: Result<WireMessage, ProtocolError>)
    ensures
        decode_models(r, spec_decode(b@)),
{
    if b.len() == 0 {
        return Result::Err(ProtocolError::Truncated);
    }
    let tag = b[0];
    if tag == 1 {
        match read_str(b, 1) {
            Result::Err(e) => Result::Err(e),
            Result::Ok((node_identity, i)) => match read_str(b, i) {
                Result::Err(e) => Result::Err(e),
                Result::Ok((host, j)) => {
                    if b.len() - j < 2 {
                        Result::Err(ProtocolError::Truncated)
                    } else if b.len() - j > 2 {
                        Result::Err(ProtocolError::Malformed)
                    } else {
                        let port = u16_from_be(b[j], b[j + 1]);
                        Result::Ok(
                            WireMessage::Handshake {
                                node_identity,
                                reachable_address: Address { host, port },
                            },
                        )
                    }
                },
            },
        }
    } else if tag == 2 {
        if b.len() == 1 {
            Result::Ok(WireMessage::Greeting)
        } else {
            Result::Err(ProtocolError::Malformed)
        }
    } else if tag == 3 {
        if b.len() == 1 {
            Result::Ok(WireMessage::Heartbeat)
        } else {
            Result::Err(ProtocolError::Malformed)
        }
    } else if tag == 4 {
        if b.len() == 1 {
            Result::Ok(WireMessage::HeartbeatAck)
        } else {
            Result::Err(ProtocolError::Malformed)
        }
    } else if tag == 5 {
        match read_str(b, 1) {
            Result::Err(e) => Result::Err(e),
            Result::Ok((key, i)) => match read_str(b, i) {
                Result::Err(e) => Result::Err(e),
                Result::Ok((value, j)) => {
                    if j == b.len() {
                        Result::Ok(WireMessage::SetValue { key, value })
                    } else {
                        Result::Err(ProtocolError::Malformed)
                    }
                },
            },
        }
    } else if tag == 6 {
        match read_str(b, 1) {
            Result::Err(e) => Result::Err(e),
            Result::Ok((key, i)) => {
                if i == b.len() {
                    Result::Ok(WireMessage::GetValue { key })
                } else {
                    Result::Err(ProtocolError::Malformed)
                }
            },
        }
    } else if tag == 7 {
        if b.len() < 2 {
            Result::Err(ProtocolError::Truncated)
        } else if b[1] == 0 {
            if b.len() == 2 {
                Result::Ok(WireMessage::ValueResponse { value: Option::None })
            } else {
                Result::Err(ProtocolError::Malformed)
            }
        } else if b[1] == 1 {
            match read_str(b, 2) {
                Result::Err(e) => Result::Err(e),
                Result::Ok((s, i)) => {
                    if i == b.len() {
                        Result::Ok(WireMessage::ValueResponse { value: Option::Some(s) })
                    } else {
                        Result::Err(ProtocolError::Malformed)
                    }
                },
            }
        } else {
            Result::Err(ProtocolError::Malformed)
        }
    } else if tag == 8 {
        match read_str(b, 1) {
            Result::Err(e) => Result::Err(e),
            Result::Ok((key, i)) => match read_str(b, i) {
                Result::Err(e) => Result::Err(e),
                Result::Ok((value, j)) => {
                    if j == b.len() {
                        Result::Ok(WireMessage::Sync { key, value })
                    } else {
                        Result::Err(ProtocolError::Malformed)
                    }
                },
            },
        }
    } else {
        Result::Err(ProtocolError::UnknownTag)
    }
}

/// What a buffer that begins with a frame holds, or why it is rejected:
/// on success, the message and the count of bytes the frame occupies.
pub open spec fn spec_decode_frame(b: Seq<u8>) -> Result<(MessageModel, int), ProtocolError> {
    if b.len() < 4 {
        Result::Err(ProtocolError::Truncated)
    } else {
        let n = dec_u32(b[0], b[1], b[2], b[3]) as int;
        if n > crate::MAX_FRAME_LEN {
            Result::Err(ProtocolError::Oversized)
        } else if b.len() < 4 + n {
            Result::Err(ProtocolError::Truncated)
        } else {
            match spec_decode(b.subrange(4, 4 + n)) {
                Result::Ok(m) => Result::Ok((m, 4 + n)),
                Result::Err(e) => Result::Err(e),
            }
        }
    }
}

/// `r` returns exactly what the frame-decoding function `s` describes.
pub open spec fn frame_decode_models(
    r: Result<(WireMessage, usize), ProtocolError>,
    s: Result<(MessageModel, int), ProtocolError>,
) -> bool {
    match (r, s) {
        (Result::Ok(p), Result::Ok(q)) => p.0@ == q.0 && p.1 as int == q.1,
        (Result::Err(e), Result::Err(ee)) => e == ee,
        _ => false,
    }
}

/// Decodes one frame from the front of `b`: reads the declared payload
/// length, rejects a length over [`crate::MAX_FRAME_LEN`] as oversized and
/// a buffer shorter than declared as truncated, then decodes exactly the
/// declared bytes. On success also returns how many bytes the frame
/// occupied, so a buffer holding several frames can be walked.
pub fn decode_frame(b: &Vec<u8>) -> (r: Result<(WireMessage, usize), ProtocolError>)
    ensures
        frame_decode_models(r, spec_decode_frame(b@)),
{
    if b.len() < 4 {
        return Result::Err(ProtocolError::Truncated);
    }
    let n32 = u32_from_be(b[0], b[1], b[2], b[3]);
    let n = n32 as usize;
    if n > crate::MAX_FRAME_LEN {
        return Result::Err(ProtocolError::Oversized);
    }
    if b.len() - 4 < n {
        return Result::Err(ProtocolError::Truncated);
    }
    let payload = vec_range_copy(b, 4, 4 + n);
    match decode_payload(&payload) {
        Result::Ok(m) => Result::Ok((m, 4 + n)),
        Result::Err(e) => Result::Err(e),
    }
}

/// Reads a four-byte frame header: the declared payload length, or the
/// rejection of an oversized declaration. A header of any other size is
/// truncated.
pub fn parse_header(h: &Vec<u8>) -> (r: Result<usize, ProtocolError>)
    ensures
        h@.len() != 4 ==> r == Result::Err::<usize, ProtocolError>(ProtocolError::Truncated),
        h@.len() == 4 ==> match r {
            Result::Ok(n) => n == dec_u32(h@[0], h@[1], h@[2], h@[3]) as int && n
                <= crate::MAX_FRAME_LEN,
            Result::Err(e) => e == ProtocolError::Oversized && dec_u32(
                h@[0],
                h@[1],
                h@[2],
                h@[3],
            ) as int > crate::MAX_FRAME_LEN,
        },
{
    if h.len() != 4 {
        return Result::Err(ProtocolError::Truncated);
    }
    let n32 = u32_from_be(h[0], h[1], h[2], h[3]);
    let n = n32 as usize;
    if n > crate::MAX_FRAME_LEN {
        return Result::Err(ProtocolError::Oversized);
    }
    Result::Ok(n)
}

/// A string field read at the offset where its encoding begins yields the
/// string back, and stops exactly at the encoding's end.
proof fn lemma_read_str_at(pre: Seq<u8>, s: Seq<char>, rest: Seq<u8>)
    requires
        encode_utf8(s).len() < 0x100000000,
    ensures
        spec_read_str(pre + enc_str(s) + rest, pre.len() as int) == Result::Ok::<(Seq<char>, int),
            ProtocolError,
        >((s, pre.len() + 4 + encode_utf8(s).len() as int)),
{
    let bs = encode_utf8(s);
    let n = bs.len() as u32;
    let b = pre + enc_str(s) + rest;
    let i = pre.len() as int;
    assert(enc_str(s) == enc_u32(n) + bs);
    assert(b[i] == (n >> 24) as u8);
    assert(b[i + 1] == (n >> 16) as u8);
    assert(b[i + 2] == (n >> 8) as u8);
    assert(b[i + 3] == n as u8);
    lemma_u32_round_trip(n);
    assert(dec_u32(b[i], b[i + 1], b[i + 2], b[i + 3]) == n);
    assert(i + 4 + n as int <= b.len());
    assert(b.subrange(i + 4, i + 4 + n as int) =~= bs);
    encode_utf8_valid_utf8(s);
    encode_utf8_decode_utf8(s);
}

/// Round trip of a Handshake payload.
proof fn lemma_rt_handshake(node_identity: Seq<char>, host: Seq<char>, port: u16)
    requires
        encode_utf8(node_identity).len() < 0x100000000,
        encode_utf8(host).len() < 0x100000000,
    ensures
        spec_decode(spec_encode(MessageModel::Handshake { node_identity, host, port }))
            == Result::Ok::<MessageModel, ProtocolError>(
            MessageModel::Handshake { node_identity, host, port },
        ),
{
    let b = spec_encode(MessageModel::Handshake { node_identity, host, port });
    let e1 = enc_str(node_identity);
    let e2 = enc_str(host);
    let n1 = encode_utf8(node_identity).len();
    let n2 = encode_utf8(host).len();
    assert(e1.len() == 4 + n1);
    assert(e2.len() == 4 + n2);
    let pre1 = seq![1u8];
    assert(b =~= pre1 + e1 + (e2 + enc_u16(port)));
    lemma_read_str_at(pre1, node_identity, e2 + enc_u16(port));
    let pre2 = pre1 + e1;
    assert(b =~= pre2 + e2 + enc_u16(port));
    lemma_read_str_at(pre2, host, enc_u16(port));
    let j = pre2.len() + 4 + n2;
    assert(b.len() == j + 2);
    assert(b[j as int] == (port >> 8) as u8);
    assert(b[j as int + 1] == port as u8);
    lemma_u16_round_trip(port);
    assert(b[0] == 1);
}

/// Round trip of a GetValue payload.
proof fn lemma_rt_get_value(key: Seq<char>)
    requires
        encode_utf8(key).len() < 0x100000000,
    ensures
        spec_decode(spec_encode(MessageModel::GetValue { key })) == Result::Ok::<
            MessageModel,
            ProtocolError,
        >(MessageModel::GetValue { key }),
{
    let b = spec_encode(MessageModel::GetValue { key });
    let pre1 = seq![6u8];
    assert(b =~= pre1 + enc_str(key) + Seq::<u8>::empty());
    lemma_read_str_at(pre1, key, Seq::<u8>::empty());
    assert(b[0] == 6);
    assert(b.len() == 1 + 4 + encode_utf8(key).len());
}

/// Round trip of a ValueResponse payload.
proof fn lemma_rt_value_response(value: Option<Seq<char>>)
    requires
        value matches Some(s) ==> encode_utf8(s).len() < 0x100000000,
    ensures
        spec_decode(spec_encode(MessageModel::ValueResponse { value })) == Result::Ok::<
            MessageModel,
            ProtocolError,
        >(MessageModel::ValueResponse { value }),
{
    let b = spec_encode(MessageModel::ValueResponse { value });
    match value {
        Option::None => {
            assert(b.len() == 2 && b[0] == 7 && b[1] == 0);
        },
        Option::Some(s) => {
            let pre = seq![7u8, 1u8];
            assert(b =~= pre + enc_str(s) + Seq::<u8>::empty());
            lemma_read_str_at(pre, s, Seq::<u8>::empty());
            assert(b[0] == 7 && b[1] == 1);
            assert(b.len() == 2 + 4 + encode_utf8(s).len());
        },
    }
}

/// Round trip of one payload: decoding the encoding of a well-formed
/// message yields the message itself.
pub proof fn lemma_encode_decode(m: MessageModel)
    requires
        msg_wf(m),
    ensures
        spec_decode(spec_encode(m)) == Result::Ok::<MessageModel, ProtocolError>(m),
{
    let b = spec_encode(m);
    match m {
        MessageModel::Handshake { node_identity, host, port } => {
            lemma_rt_handshake(node_identity, host, port);
        },
        MessageModel::Greeting => {
            assert(b.len() == 1 && b[0] == 2);
        },
        MessageModel::Heartbeat => {
            assert(b.len() == 1 && b[0] == 3);
        },
        MessageModel::HeartbeatAck => {
            assert(b.len() == 1 && b[0] == 4);
        },
        MessageModel::SetValue { key, value } => {
            lemma_read_two(5u8, key, value);
        },
        MessageModel::GetValue { key } => {
            lemma_rt_get_value(key);
        },
        MessageModel::ValueResponse { value } => {
            lemma_rt_value_response(value);
        },
        MessageModel::Sync { key, value } => {
            lemma_read_two(8u8, key, value);
        },
    }
}

/// Two string fields behind a tag byte read back as themselves, consuming
/// the payload exactly.
proof fn lemma_read_two(tag: u8, first: Seq<char>, second: Seq<char>)
    requires
        encode_utf8(first).len() < 0x100000000,
        encode_utf8(second).len() < 0x100000000,
    ensures
        spec_read_two(seq![tag] + enc_str(first) + enc_str(second)) == Result::Ok::<(
            Seq<char>,
            Seq<char>,
        ), ProtocolError>((first, second)),
        (seq![tag] + enc_str(first) + enc_str(second))[0] == tag,
        (seq![tag] + enc_str(first) + enc_str(second)).len() > 0,
{
    let b = seq![tag] + enc_str(first) + enc_str(second);
    let e1 = enc_str(first);
    let e2 = enc_str(second);
    assert(e1.len() == 4 + encode_utf8(first).len());
    assert(e2.len() == 4 + encode_utf8(second).len());
    let pre1 = seq![tag];
    assert(b =~= pre1 + e1 + e2);
    lemma_read_str_at(pre1, first, e2);
    let pre2 = pre1 + e1;
    assert(b =~= pre2 + e2 + Seq::<u8>::empty());
    lemma_read_str_at(pre2, second, Seq::<u8>::empty());
    assert(pre2.len() + 4 + encode_utf8(second).len() == b.len());
}

/// Round trip of one frame: decoding the framed encoding of a message
/// yields the message and consumes the whole frame.
pub proof fn lemma_frame_round_trip(m: MessageModel)
    requires
        msg_wf(m),
        spec_encode(m).len() <= crate::MAX_FRAME_LEN,
    ensures
        spec_decode_frame(spec_frame(spec_encode(m))) == Result::Ok::<(MessageModel, int),
            ProtocolError,
        >((m, 4 + spec_encode(m).len() as int)),
{
    let p = spec_encode(m);
    let n = p.len() as u32;
    let f = spec_frame(p);
    assert(f[0] == (n >> 24) as u8);
    assert(f[1] == (n >> 16) as u8);
    assert(f[2] == (n >> 8) as u8);
    assert(f[3] == n as u8);
    lemma_u32_round_trip(n);
    assert(f.subrange(4, 4 + n as int) =~= p);
    lemma_encode_decode(m);
}

/// A truncated frame is rejected, never misread: every strict prefix of a
/// well-formed frame decodes to an error.
pub proof fn lemma_frame_prefix_rejected(m: MessageModel, k: int)
    requires
        msg_wf(m),
        spec_encode(m).len() <= crate::MAX_FRAME_LEN,
        0 <= k < spec_frame(spec_encode(m)).len(),
    ensures
        spec_decode_frame(spec_frame(spec_encode(m)).subrange(0, k)) is Err,
{
    let p = spec_encode(m);
    let n = p.len() as u32;
    let f = spec_frame(p);
    let t = f.subrange(0, k);
    if t.len() >= 4 {
        assert(t[0] == (n >> 24) as u8);
        assert(t[1] == (n >> 16) as u8);
        assert(t[2] == (n >> 8) as u8);
        assert(t[3] == n as u8);
        lemma_u32_round_trip(n);
        assert(t.len() < 4 + n as int);
    }
}

} // verus!
