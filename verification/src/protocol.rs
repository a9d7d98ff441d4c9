//! Protocol v1 framing: discrete framed binary messages.
//!
//! Six little-endian `u32` header words (version, message type, sequence
//! number, flags, payload length, payload offset), then the payload, padded
//! with zeros to a multiple of four bytes. The version word comes first so a
//! mismatched peer is diagnosed before any other word is interpreted.
use vstd::prelude::*;

use vstd::string::StringSliceAdditionalSpecFns;

use crate::text::{ascii_string, decimal_ascii, spec_decimal};

verus! {

/// Wire-format version.
pub const PROTOCOL_VERSION: u32 = 1;

/// Header size in bytes (6 x `u32`).
pub const HEADER_BYTES: usize = 24;

/// `flags` bit 0: this is the last frame of the response.
pub const FLAG_TERMINAL: u32 = 1;

/// Every flag bit this version defines.
pub const KNOWN_FLAGS: u32 = 1;

/// Target payload size for a chunked array, in bytes.
pub const CHUNK_TARGET_BYTES: usize = 524288;

/// Bytes per array record: one point (x, y) or one link (src, tgt).
pub const RECORD_BYTES: usize = 8;

/// What a frame's payload is. The codes are frozen for protocol version 1.
#[derive(Debug, Clone, Copy, PartialEq, Eq, Structural)]
pub enum MessageType {
    /// UTF-8 JSON: the meta-graph's metadata half.
    MetaGraphMeta,
    /// `f32` pairs, one per slot, in slot order.
    Points,
    /// `f32` pairs of slot indices.
    Links,
    /// UTF-8 JSON: session information.
    SessionInfo,
    /// UTF-8 JSON: a server-side failure, reported in-band.
    Error,
}

/// The wire value of a message type.
pub open spec fn spec_code(m: MessageType) -> u32 {
    match m {
        MessageType::MetaGraphMeta => 1,
        MessageType::Points => 2,
        MessageType::Links => 3,
        MessageType::SessionInfo => 4,
        MessageType::Error => 5,
    }
}

/// The message type a wire value names, if any.
pub open spec fn spec_from_code(code: u32) -> Option<MessageType> {
    if code == 1 {
        Some(MessageType::MetaGraphMeta)
    } else if code == 2 {
        Some(MessageType::Points)
    } else if code == 3 {
        Some(MessageType::Links)
    } else if code == 4 {
        Some(MessageType::SessionInfo)
    } else if code == 5 {
        Some(MessageType::Error)
    } else {
        None
    }
}

impl MessageType {
    /// Every variant, in wire order.
    pub const ALL: [MessageType; 5] = [
        MessageType::MetaGraphMeta,
        MessageType::Points,
        MessageType::Links,
        MessageType::SessionInfo,
        MessageType::Error,
    ];

    /// Wire value.
    pub fn code(self) -> (c: u32)
        ensures
            c == spec_code(self),
    {
        match self {
            MessageType::MetaGraphMeta => 1,
            MessageType::Points => 2,
            MessageType::Links => 3,
            MessageType::SessionInfo => 4,
            MessageType::Error => 5,
        }
    }

    /// The TypeScript constant name for this variant.
    pub fn ts_name(self) -> (name: &'static str)
        ensures
            self == MessageType::MetaGraphMeta ==> name@ == "META_GRAPH_META"@,
            self == MessageType::Points ==> name@ == "POINTS"@,
            self == MessageType::Links ==> name@ == "LINKS"@,
            self == MessageType::SessionInfo ==> name@ == "SESSION_INFO"@,
            self == MessageType::Error ==> name@ == "ERROR"@,
    {
        match self {
            MessageType::MetaGraphMeta => "META_GRAPH_META",
            MessageType::Points => "POINTS",
            MessageType::Links => "LINKS",
            MessageType::SessionInfo => "SESSION_INFO",
            MessageType::Error => "ERROR",
        }
    }

    /// The variant whose wire value is `code`.
    pub fn from_code(code: u32) -> (m: Option<MessageType>)
        ensures
            m == spec_from_code(code),
    {
        if code == 1 {
            Some(MessageType::MetaGraphMeta)
        } else if code == 2 {
            Some(MessageType::Points)
        } else if code == 3 {
            Some(MessageType::Links)
        } else if code == 4 {
            Some(MessageType::SessionInfo)
        } else if code == 5 {
            Some(MessageType::Error)
        } else {
            None
        }
    }
}

/// Every code a variant has is read back as that variant.
pub proof fn lemma_code_round_trip(m: MessageType)
    ensures
        spec_from_code(spec_code(m)) == Some(m),
{
}

/// A frame that failed to decode. Every variant is a refusal.
#[derive(Debug, Clone, PartialEq, Eq, Structural)]
pub enum ProtocolError {
    /// Fewer bytes than a header.
    TooShort { got: usize },
    /// The peer speaks a different wire format.
    VersionMismatch { expected: u32, found: u32 },
    /// A `msg_type` word this version does not define.
    UnknownMessageType(u32),
    /// A `flags` bit this version does not define.
    UnknownFlags(u32),
    /// `payload_len` disagrees with the bytes actually present.
    LengthMismatch { declared: usize, available: usize },
    /// The padding after the payload was not zero, or was the wrong count.
    BadPadding,
}

impl ProtocolError {
    /// The sentence a user is shown for this refusal.
    pub fn message(&self) -> (s: String)
        ensures
            s@ == spec_error_message(*self),
    {
        match self {
            ProtocolError::TooShort { got } => {
                let mut s = String::new();
                s.append("frame is ");
                s.append(decimal(*got as u64).as_str());
                s.append(" bytes, shorter than the 24-byte header");
                s
            },
            ProtocolError::VersionMismatch { expected, found } => {
                let mut s = String::new();
                s.append("protocol version mismatch: this build speaks v");
                s.append(decimal(*expected as u64).as_str());
                s.append(", the frame declares v");
                s.append(decimal(*found as u64).as_str());
                s
            },
            ProtocolError::UnknownMessageType(code) => {
                let mut s = String::new();
                s.append("unknown message type ");
                s.append(decimal(*code as u64).as_str());
                s
            },
            ProtocolError::UnknownFlags(flags) => {
                let mut s = String::new();
                s.append("unknown flag bits set: ");
                s.append(decimal(*flags as u64).as_str());
                s
            },
            ProtocolError::LengthMismatch { declared, available } => {
                let mut s = String::new();
                s.append("frame declares a ");
                s.append(decimal(*declared as u64).as_str());
                s.append("-byte payload but carries ");
                s.append(decimal(*available as u64).as_str());
                s
            },
            ProtocolError::BadPadding => {
                let mut s = String::new();
                s.append("frame is not padded to a 4-byte boundary with zeros");
                s
            },
        }
    }
}

/// The text of a protocol refusal.
pub open spec fn spec_error_message(e: ProtocolError) -> Seq<char> {
    match e {
        ProtocolError::TooShort { got } => "frame is "@ + spec_decimal(got as nat)
            + " bytes, shorter than the 24-byte header"@,
        ProtocolError::VersionMismatch { expected, found } =>
            "protocol version mismatch: this build speaks v"@ + spec_decimal(expected as nat)
                + ", the frame declares v"@ + spec_decimal(found as nat),
        ProtocolError::UnknownMessageType(code) => "unknown message type "@ + spec_decimal(
            code as nat,
        ),
        ProtocolError::UnknownFlags(flags) => "unknown flag bits set: "@ + spec_decimal(
            flags as nat,
        ),
        ProtocolError::LengthMismatch { declared, available } => "frame declares a "@
            + spec_decimal(declared as nat) + "-byte payload but carries "@ + spec_decimal(
            available as nat,
        ),
        ProtocolError::BadPadding => "frame is not padded to a 4-byte boundary with zeros"@,
    }
}

fn decimal(v: u64) -> (s: String)
    ensures
        s@ == spec_decimal(v as nat),
{
    ascii_string(decimal_ascii(v))
}

/// One decoded frame.
#[derive(Debug, Clone, PartialEq, Eq)]
pub struct DecodedFrame {
    pub msg_type: MessageType,
    pub seq: u32,
    pub terminal: bool,
    pub payload_offset: u32,
    pub payload: Vec<u8>,
}

/// The four little-endian bytes of `v`.
pub open spec fn le32(v: u32) -> Seq<u8> {
    seq![
        (v % 256) as u8,
        ((v / 256) % 256) as u8,
        ((v / 65536) % 256) as u8,
        (v / 16777216) as u8,
    ]
}

/// The little-endian `u32` in header word `w` of `b`.
pub open spec fn word_at(b: Seq<u8>, w: int) -> u32 {
    (b[4 * w] as int + 256 * (b[4 * w + 1] as int) + 65536 * (b[4 * w + 2] as int) + 16777216 * (
    b[4 * w + 3] as int)) as u32
}

/// Zero bytes that pad a payload of `n` bytes to a multiple of four.
pub open spec fn pad_len(n: nat) -> nat {
    ((4 - (n % 4) as int) % 4) as nat
}

/// The bytes of one frame.
pub open spec fn frame_bytes(
    msg: MessageType,
    seq: u32,
    flags: u32,
    payload: Seq<u8>,
    offset: u32,
) -> Seq<u8> {
    le32(PROTOCOL_VERSION) + le32(spec_code(msg)) + le32(seq) + le32(flags) + le32(
        payload.len() as u32,
    ) + le32(offset) + payload + Seq::new(pad_len(payload.len()), |i: int| 0u8)
}

/// Why `b` is refused, checked in wire order; `None` when it is a frame.
pub open spec fn frame_error(b: Seq<u8>) -> Option<ProtocolError> {
    if b.len() < 24 {
        Some(ProtocolError::TooShort { got: b.len() as usize })
    } else if word_at(b, 0) != PROTOCOL_VERSION {
        Some(ProtocolError::VersionMismatch { expected: PROTOCOL_VERSION, found: word_at(b, 0) })
    } else if spec_from_code(word_at(b, 1)) is None {
        Some(ProtocolError::UnknownMessageType(word_at(b, 1)))
    } else if word_at(b, 3) / 2 != 0 {
        Some(ProtocolError::UnknownFlags(((word_at(b, 3) / 2) * 2) as u32))
    } else if word_at(b, 4) > b.len() - 24 {
        Some(
            ProtocolError::LengthMismatch {
                declared: word_at(b, 4) as usize,
                available: (b.len() - 24) as usize,
            },
        )
    } else if b.len() - 24 - word_at(b, 4) >= 4 || exists|i: int|
        24 + word_at(b, 4) <= i < b.len() && b[i] != 0u8 {
        Some(ProtocolError::BadPadding)
    } else {
        None
    }
}

/// A frame decodes exactly when its header is one this version writes, its
/// declared payload fits in what follows the header, and what follows the
/// payload is fewer than four bytes, every one of them zero.
pub proof fn lemma_decodes_only_with_zero_padding(b: Seq<u8>)
    ensures
        frame_error(b) is None <==> {
            &&& b.len() >= 24
            &&& word_at(b, 0) == PROTOCOL_VERSION
            &&& spec_from_code(word_at(b, 1)) is Some
            &&& word_at(b, 3) < 2
            &&& 24 + word_at(b, 4) <= b.len() < 24 + word_at(b, 4) + 4
            &&& forall|i: int| 24 + word_at(b, 4) <= i < b.len() ==> b[i] == 0u8
        },
{
}

/// What a frame that passes every check says.
pub open spec fn frame_decodes_to(b: Seq<u8>, f: DecodedFrame) -> bool {
    &&& spec_from_code(word_at(b, 1)) == Some(f.msg_type)
    &&& f.seq == word_at(b, 2)
    &&& f.terminal == (word_at(b, 3) % 2 == 1)
    &&& f.payload_offset == word_at(b, 5)
    &&& f.payload@ == b.subrange(24, 24 + word_at(b, 4))
}

proof fn lemma_le32_word(v: u32)
    ensures
        le32(v)[0] as int + 256 * (le32(v)[1] as int) + 65536 * (le32(v)[2] as int) + 16777216 * (
        le32(v)[3] as int) == v as int,
{
    assert(v as int == (v % 256) as int + 256 * ((v / 256) % 256) as int + 65536 * ((v / 65536)
        % 256) as int + 16777216 * (v / 16777216) as int) by (nonlinear_arith);
}

/// Reading a header word back out of a frame gives the word that was written.
#[verifier::spinoff_prover]
#[verifier::rlimit(40)]
proof fn lemma_frame_words(
    msg: MessageType,
    seq: u32,
    flags: u32,
    payload: Seq<u8>,
    offset: u32,
)
    requires
        payload.len() <= u32::MAX,
    ensures
        ({
            let b = frame_bytes(msg, seq, flags, payload, offset);
            &&& b.len() == 24 + payload.len() + pad_len(payload.len())
            &&& word_at(b, 0) == PROTOCOL_VERSION
            &&& word_at(b, 1) == spec_code(msg)
            &&& word_at(b, 2) == seq
            &&& word_at(b, 3) == flags
            &&& word_at(b, 4) == payload.len()
            &&& word_at(b, 5) == offset
            &&& b.subrange(24, 24 + payload.len() as int) == payload
            &&& forall|i: int| 24 + payload.len() <= i < b.len() ==> b[i] == 0u8
        }),
{
    let b = frame_bytes(msg, seq, flags, payload, offset);
    let words = seq![PROTOCOL_VERSION, spec_code(msg), seq, flags, payload.len() as u32, offset];
    lemma_le32_word(PROTOCOL_VERSION);
    lemma_le32_word(spec_code(msg));
    lemma_le32_word(seq);
    lemma_le32_word(flags);
    lemma_le32_word(payload.len() as u32);
    lemma_le32_word(offset);
    assert forall|w: int, k: int| 0 <= w < 6 && 0 <= k < 4 implies b[4 * w + k] == le32(
        words[w],
    )[k] by {}
    assert(b.subrange(24, 24 + payload.len() as int) =~= payload);
}

/// The fixed-width little-endian word `w` of `bytes`.
pub fn read_u32(bytes: &[u8], word: usize) -> (v: u32)
    requires
        4 * word + 4 <= bytes@.len(),
    ensures
        v == word_at(bytes@, word as int),
{
    let n = bytes.len();
    assert(word * 4 + 4 <= n);
    let at = word * 4;
    let b0 = bytes[at] as u32;
    let b1 = bytes[at + 1] as u32;
    let b2 = bytes[at + 2] as u32;
    let b3 = bytes[at + 3] as u32;
    b0 + 256 * b1 + 65536 * b2 + 16777216 * b3
}

/// Decode one frame. The version word is checked before any other field.
#[verifier::loop_isolation(false)]
pub fn decode_frame(bytes: &[u8]) -> (r: Result<DecodedFrame, ProtocolError>)
    ensures
        match r {
            Ok(f) => frame_error(bytes@) is None && frame_decodes_to(bytes@, f),
            Err(e) => frame_error(bytes@) == Some(e),
        },
{
    if bytes.len() < HEADER_BYTES {
        return Err(ProtocolError::TooShort { got: bytes.len() });
    }
    let version = read_u32(bytes, 0);
    if version != PROTOCOL_VERSION {
        return Err(ProtocolError::VersionMismatch { expected: PROTOCOL_VERSION, found: version });
    }
    let msg_code = read_u32(bytes, 1);
    let msg_type = match MessageType::from_code(msg_code) {
        Some(m) => m,
        None => return Err(ProtocolError::UnknownMessageType(msg_code)),
    };
    let seq = read_u32(bytes, 2);
    let flags = read_u32(bytes, 3);
    if flags / 2 != 0 {
        return Err(ProtocolError::UnknownFlags((flags / 2) * 2));
    }
    let payload_len = read_u32(bytes, 4) as usize;
    let payload_offset = read_u32(bytes, 5);
    let available = bytes.len() - HEADER_BYTES;
    if payload_len > available {
        return Err(ProtocolError::LengthMismatch { declared: payload_len, available });
    }
    let end = HEADER_BYTES + payload_len;
    if bytes.len() - end >= 4 {
        assert(bytes@.len() - 24 - word_at(bytes@, 4) >= 4);
        return Err(ProtocolError::BadPadding);
    }
    let mut i = end;
    while i < bytes.len()
        invariant
            end <= i <= bytes@.len(),
            end == 24 + word_at(bytes@, 4),
            forall|j: int| end <= j < i ==> bytes@[j] == 0u8,
        decreases bytes@.len() - i,
    {
        if bytes[i] != 0 {
            assert(24 + word_at(bytes@, 4) <= i < bytes@.len() && bytes@[i as int] != 0u8);
            return Err(ProtocolError::BadPadding);
        }
        i = i + 1;
    }
    let mut payload: Vec<u8> = Vec::with_capacity(payload_len);
    let mut k = HEADER_BYTES;
    while k < end
        invariant
            HEADER_BYTES <= k <= end <= bytes@.len(),
            payload@ == bytes@.subrange(24, k as int),
        decreases end - k,
    {
        payload.push(bytes[k]);
        assert(bytes@.subrange(24, k + 1) == bytes@.subrange(24, k as int).push(bytes@[k as int]));
        k = k + 1;
    }
    Ok(
        DecodedFrame {
            msg_type,
            seq,
            terminal: flags % 2 == 1,
            payload_offset,
            payload,
        },
    )
}

/// Builds the frame sequence for one response; `finish` marks the last frame
/// terminal.
#[derive(Debug)]
pub struct ResponseEncoder {
    frames: Vec<Vec<u8>>,
}

impl ResponseEncoder {
    /// The frames pushed so far, before `finish`.
    pub closed spec fn frames(&self) -> Seq<Seq<u8>> {
        self.frames@.map_values(|f: Vec<u8>| f@)
    }

    pub fn new() -> (enc: Self)
        ensures
            enc.frames() == Seq::<Seq<u8>>::empty(),
    {
        let enc = ResponseEncoder { frames: Vec::new() };
        assert(enc.frames() =~= Seq::<Seq<u8>>::empty());
        enc
    }

    /// Append a JSON payload as a single, unchunked frame.
    pub fn push_json(&mut self, msg_type: MessageType, json: &str)
        requires
            old(self).frames().len() < u32::MAX,
            json.spec_bytes().len() <= u32::MAX,
        ensures
            final(self).frames() == old(self).frames().push(
                frame_bytes(
                    msg_type,
                    old(self).frames().len() as u32,
                    0,
                    json.spec_bytes(),
                    0,
                ),
            ),
    {
        self.push_frame(msg_type, json.as_bytes(), 0);
    }

    /// Append a byte array chunked at whole records of the chunk target. An
    /// empty array still emits one frame.
    #[verifier::rlimit(40)]
    pub fn push_array_bytes(&mut self, msg_type: MessageType, bytes: &[u8])
        requires
            bytes@.len() <= u32::MAX,
            old(self).frames().len() + chunk_count(bytes@.len()) < u32::MAX,
        ensures
            final(self).frames().len() == old(self).frames().len() + chunk_count(bytes@.len()),
            forall|i: int|
                0 <= i < old(self).frames().len() ==> final(self).frames()[i] == old(
                    self,
                ).frames()[i],
            forall|k: int|
                #![trigger final(self).frames()[old(self).frames().len() + k]]
                0 <= k < chunk_count(bytes@.len()) ==> final(self).frames()[old(
                    self,
                ).frames().len() + k] == frame_bytes(
                    msg_type,
                    (old(self).frames().len() + k) as u32,
                    0,
                    chunk_of(bytes@, k),
                    (k * spec_chunk_bytes()) as u32,
                ),
    {
        let c = chunk_bytes();
        if bytes.len() == 0 {
            let empty: [u8; 0] = [];
            self.push_frame(msg_type, &empty, 0);
            assert(chunk_of(bytes@, 0) =~= Seq::<u8>::empty());
            return ;
        }
        let ghost start = self.frames().len();
        proof {
            lemma_chunk_count_step(bytes@.len(), 0);
        }
        let mut at: usize = 0;
        let mut k: usize = 0;
        while at < bytes.len()
            invariant
                c == spec_chunk_bytes(),
                at == k * c || (at == bytes@.len() && k == chunk_count(bytes@.len())),
                at < bytes@.len() ==> at == k * c,
                at < bytes@.len() + c,
                0 < bytes@.len() <= u32::MAX,
                start == old(self).frames().len(),
                start + chunk_count(bytes@.len()) < u32::MAX,
                self.frames().len() == start + k,
                k <= chunk_count(bytes@.len()),
                at < bytes@.len() ==> k < chunk_count(bytes@.len()),
                at >= bytes@.len() ==> k == chunk_count(bytes@.len()),
                forall|i: int| 0 <= i < start ==> self.frames()[i] == old(self).frames()[i],
                forall|j: int|
                    #![trigger self.frames()[start + j]]
                    0 <= j < k ==> self.frames()[start + j] == frame_bytes(
                        msg_type,
                        (start + j) as u32,
                        0,
                        chunk_of(bytes@, j),
                        (j * spec_chunk_bytes()) as u32,
                    ),
            decreases bytes@.len() - at,
        {
            let end = if bytes.len() - at < c {
                bytes.len()
            } else {
                at + c
            };
            let chunk = copy_range(bytes, at, end);
            proof {
                lemma_chunk_count_step(bytes@.len(), k as nat);
                assert(chunk@ =~= chunk_of(bytes@, k as int));
            }
            self.push_frame(msg_type, chunk.as_slice(), at as u32);
            at = end;
            k = k + 1;
        }
    }

    fn push_frame(&mut self, msg_type: MessageType, payload: &[u8], payload_offset: u32)
        requires
            old(self).frames().len() < u32::MAX,
            payload@.len() <= u32::MAX,
        ensures
            final(self).frames() == old(self).frames().push(
                frame_bytes(
                    msg_type,
                    old(self).frames().len() as u32,
                    0,
                    payload@,
                    payload_offset,
                ),
            ),
    {
        let seq = self.frames.len() as u32;
        let padding = (4 - payload.len() % 4) % 4;
        let mut frame: Vec<u8> = Vec::new();
        push_u32_le(&mut frame, PROTOCOL_VERSION);
        push_u32_le(&mut frame, msg_type.code());
        push_u32_le(&mut frame, seq);
        push_u32_le(&mut frame, 0);
        push_u32_le(&mut frame, payload.len() as u32);
        push_u32_le(&mut frame, payload_offset);
        let ghost header = frame@;
        let mut i: usize = 0;
        while i < payload.len()
            invariant
                i <= payload@.len(),
                frame@ == header + payload@.subrange(0, i as int),
            decreases payload@.len() - i,
        {
            frame.push(payload[i]);
            assert(payload@.subrange(0, i + 1) == payload@.subrange(0, i as int).push(
                payload@[i as int],
            ));
            i = i + 1;
        }
        let ghost body = frame@;
        let mut j: usize = 0;
        while j < padding
            invariant
                j <= padding,
                padding == pad_len(payload@.len()),
                frame@ == body + Seq::new(j as nat, |x: int| 0u8),
            decreases padding - j,
        {
            frame.push(0u8);
            assert(Seq::new((j + 1) as nat, |x: int| 0u8) =~= Seq::new(j as nat, |x: int| 0u8).push(
                0u8,
            ));
            j = j + 1;
        }
        assert(payload@.subrange(0, payload@.len() as int) =~= payload@);
        assert(frame@ =~= frame_bytes(msg_type, seq, 0, payload@, payload_offset));
        let ghost prev = self.frames();
        self.frames.push(frame);
        assert(self.frames() =~= prev.push(frame_bytes(msg_type, seq, 0, payload@, payload_offset)));
    }

    /// Finish the response, marking the last frame terminal.
    pub fn finish(self) -> (frames: Vec<Vec<u8>>)
        requires
            forall|i: int|
                0 <= i < self.frames().len() ==> #[trigger] self.frames()[i].len() >= 16,
        ensures
            frames@.len() == self.frames().len(),
            forall|i: int|
                0 <= i < frames@.len() ==> #[trigger] frames@[i]@ == if i == frames@.len() - 1 {
                    set_terminal(self.frames()[i])
                } else {
                    self.frames()[i]
                },
    {
        let ghost before = self.frames();
        let mut frames = self.frames;
        assert(before =~= frames@.map_values(|f: Vec<u8>| f@));
        let n = frames.len();
        if n > 0 {
            let mut last = frames.pop().unwrap();
            assert(last@ == before[n - 1]);
            assert(before[n - 1].len() >= 16);
            assert(frames@.map_values(|f: Vec<u8>| f@) =~= before.take(n - 1));
            last[12] = 1;
            last[13] = 0;
            last[14] = 0;
            last[15] = 0;
            assert(last@ =~= set_terminal(before[n - 1]));
            frames.push(last);
        }
        frames
    }
}

/// A frame with its flags word set to the terminal flag.
pub open spec fn set_terminal(frame: Seq<u8>) -> Seq<u8> {
    frame.update(12, 1u8).update(13, 0u8).update(14, 0u8).update(15, 0u8)
}

/// Chunk size rounded down to a whole number of records.
pub open spec fn spec_chunk_bytes() -> nat {
    (CHUNK_TARGET_BYTES - CHUNK_TARGET_BYTES % RECORD_BYTES) as nat
}

/// Chunk size rounded down to a whole number of records, so a chunk boundary
/// never splits an (x, y) pair or a (src, tgt) link.
pub fn chunk_bytes() -> (c: usize)
    ensures
        c == spec_chunk_bytes(),
        c % RECORD_BYTES == 0,
        c > 0,
{
    CHUNK_TARGET_BYTES - CHUNK_TARGET_BYTES % RECORD_BYTES
}

/// Frames an array of `len` bytes occupies: one per started chunk, and one
/// for an empty array.
pub open spec fn chunk_count(len: nat) -> nat {
    if len == 0 {
        1
    } else {
        ((len + spec_chunk_bytes() - 1) as int / spec_chunk_bytes() as int) as nat
    }
}

/// The `k`-th chunk of `bytes`.
pub open spec fn chunk_of(bytes: Seq<u8>, k: int) -> Seq<u8> {
    let start = k * spec_chunk_bytes();
    let end = if bytes.len() - start < spec_chunk_bytes() {
        bytes.len() as int
    } else {
        start + spec_chunk_bytes()
    };
    bytes.subrange(start, end)
}

proof fn lemma_chunk_count_step(len: nat, k: nat)
    requires
        len > 0,
        k * spec_chunk_bytes() < len,
    ensures
        k < chunk_count(len),
        (len - k * spec_chunk_bytes() <= spec_chunk_bytes()) ==> k + 1 == chunk_count(len),
        (len - k * spec_chunk_bytes() > spec_chunk_bytes()) ==> k + 1 < chunk_count(len),
{
    let c = spec_chunk_bytes();
    assert(c == 524288);
    assert((len + c - 1) / c as int > k) by (nonlinear_arith)
        requires
            k * c < len,
            c > 0,
    ;
    if len - k * c <= c {
        assert((len + c - 1) / c as int == k + 1) by (nonlinear_arith)
            requires
                k * c < len <= k * c + c,
                c > 0,
        ;
    } else {
        assert((len + c - 1) / c as int > k + 1) by (nonlinear_arith)
            requires
                k * c + c < len,
                c > 0,
        ;
    }
}

fn copy_range(bytes: &[u8], at: usize, end: usize) -> (chunk: Vec<u8>)
    requires
        at <= end <= bytes@.len(),
    ensures
        chunk@ == bytes@.subrange(at as int, end as int),
{
    let mut chunk: Vec<u8> = Vec::new();
    let mut p = at;
    while p < end
        invariant
            at <= p <= end <= bytes@.len(),
            chunk@ == bytes@.subrange(at as int, p as int),
        decreases end - p,
    {
        chunk.push(bytes[p]);
        assert(bytes@.subrange(at as int, p + 1) == bytes@.subrange(at as int, p as int).push(
            bytes@[p as int],
        ));
        p = p + 1;
    }
    chunk
}

fn push_u32_le(v: &mut Vec<u8>, x: u32)
    ensures
        final(v)@ == old(v)@ + le32(x),
{
    v.push((x % 256) as u8);
    v.push(((x / 256) % 256) as u8);
    v.push(((x / 65536) % 256) as u8);
    v.push((x / 16777216) as u8);
    assert(final(v)@ =~= old(v)@ + le32(x));
}

/// Decoding a frame that `push_json` (or a chunk push) wrote, once `finish`
/// marked it terminal or not, gives back exactly the message type, sequence
/// number, offset and payload it was built from.
pub proof fn lemma_frame_round_trip(
    msg: MessageType,
    seq: u32,
    terminal: bool,
    payload: Seq<u8>,
    offset: u32,
)
    requires
        payload.len() <= u32::MAX,
    ensures
        ({
            let b = frame_bytes(msg, seq, if terminal { 1u32 } else { 0u32 }, payload, offset);
            &&& frame_error(b) is None
            &&& spec_from_code(word_at(b, 1)) == Some(msg)
            &&& word_at(b, 2) == seq
            &&& (word_at(b, 3) % 2 == 1) == terminal
            &&& word_at(b, 5) == offset
            &&& b.subrange(24, 24 + word_at(b, 4)) == payload
        }),
{
    let flags: u32 = if terminal {
        1
    } else {
        0
    };
    lemma_frame_words(msg, seq, flags, payload, offset);
    lemma_code_round_trip(msg);
}

/// Marking a frame terminal is exactly writing the terminal flag word.
pub proof fn lemma_set_terminal(msg: MessageType, seq: u32, payload: Seq<u8>, offset: u32)
    ensures
        set_terminal(frame_bytes(msg, seq, 0, payload, offset)) == frame_bytes(
            msg,
            seq,
            1,
            payload,
            offset,
        ),
{
    assert(set_terminal(frame_bytes(msg, seq, 0, payload, offset)) =~= frame_bytes(
        msg,
        seq,
        1,
        payload,
        offset,
    ));
}

/// Frames pushed in order, each numbered by its position and not yet
/// terminal, come out of `finish` (whose output is `out`) numbered the same,
/// each a valid frame of its message type, and exactly the last one
/// terminal.
pub proof fn lemma_finish_marks_only_the_last(
    frames: Seq<Seq<u8>>,
    msgs: Seq<MessageType>,
    payloads: Seq<Seq<u8>>,
    offsets: Seq<u32>,
    out: Seq<Seq<u8>>,
)
    requires
        frames.len() <= u32::MAX,
        msgs.len() == frames.len(),
        payloads.len() == frames.len(),
        offsets.len() == frames.len(),
        forall|i: int|
            0 <= i < frames.len() ==> payloads[i].len() <= u32::MAX && #[trigger] frames[i]
                == frame_bytes(msgs[i], i as u32, 0, payloads[i], offsets[i]),
        out.len() == frames.len(),
        forall|i: int|
            0 <= i < out.len() ==> #[trigger] out[i] == if i == out.len() - 1 {
                set_terminal(frames[i])
            } else {
                frames[i]
            },
    ensures
        forall|i: int|
            0 <= i < out.len() ==> {
                &&& frame_error(#[trigger] out[i]) is None
                &&& spec_from_code(word_at(out[i], 1)) == Some(msgs[i])
                &&& word_at(out[i], 2) == i
                &&& (word_at(out[i], 3) % 2 == 1) == (i == out.len() - 1)
                &&& out[i].subrange(24, 24 + word_at(out[i], 4)) == payloads[i]
            },
{
    assert forall|i: int| 0 <= i < out.len() implies {
        &&& frame_error(#[trigger] out[i]) is None
        &&& spec_from_code(word_at(out[i], 1)) == Some(msgs[i])
        &&& word_at(out[i], 2) == i
        &&& (word_at(out[i], 3) % 2 == 1) == (i == out.len() - 1)
        &&& out[i].subrange(24, 24 + word_at(out[i], 4)) == payloads[i]
    } by {
        let last = i == out.len() - 1;
        assert(frames[i] == frame_bytes(msgs[i], i as u32, 0, payloads[i], offsets[i]));
        if last {
            lemma_set_terminal(msgs[i], i as u32, payloads[i], offsets[i]);
        }
        lemma_frame_round_trip(msgs[i], i as u32, last, payloads[i], offsets[i]);
    }
}

/// Every frame is a whole number of four-byte words.
pub proof fn lemma_frame_aligned(
    msg: MessageType,
    seq: u32,
    flags: u32,
    payload: Seq<u8>,
    offset: u32,
)
    ensures
        frame_bytes(msg, seq, flags, payload, offset).len() % 4 == 0,
{
    let n = payload.len();
    assert((24 + n + pad_len(n)) % 4 == 0) by (nonlinear_arith)
        requires
            pad_len(n) == ((4 - (n % 4) as int) % 4) as nat,
    ;
}

} // verus!
