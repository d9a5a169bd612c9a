//! The WebSocket frame: its wire format, encoder and decoder.

use vstd::prelude::*;
use vstd::string::StringSliceAdditionalSpecFns;
use crate::bytes::append_bytes;

verus! {

/// The kind of a frame, carried in the low four bits of its first byte.
#[derive(Clone, Copy, Debug, PartialEq, Eq, Structural)]
pub enum Opcode {
    Continuation,
    Text,
    Binary,
    Close,
    Ping,
    Pong,
}

impl Opcode {
    /// The number that stands for this opcode on the wire.
    pub open spec fn wire_code(self) -> u8 {
        match self {
            Opcode::Continuation => 0,
            Opcode::Text => 1,
            Opcode::Binary => 2,
            Opcode::Close => 8,
            Opcode::Ping => 9,
            Opcode::Pong => 10,
        }
    }

    /// The opcode that a wire number stands for, if it stands for one.
    pub open spec fn of_wire_code(code: u8) -> Option<Opcode> {
        if code == 0 {
            Some(Opcode::Continuation)
        } else if code == 1 {
            Some(Opcode::Text)
        } else if code == 2 {
            Some(Opcode::Binary)
        } else if code == 8 {
            Some(Opcode::Close)
        } else if code == 9 {
            Some(Opcode::Ping)
        } else if code == 10 {
            Some(Opcode::Pong)
        } else {
            None
        }
    }

    /// The number that stands for this opcode on the wire.
    pub fn code(self) -> (code: u8)
        ensures
            code == self.wire_code(),
    {
        match self {
            Opcode::Continuation => 0,
            Opcode::Text => 1,
            Opcode::Binary => 2,
            Opcode::Close => 8,
            Opcode::Ping => 9,
            Opcode::Pong => 10,
        }
    }

    /// The opcode that a wire number stands for, or `None` for a number that
    /// stands for none.
    pub fn from_code(code: u8) -> (opcode: Option<Opcode>)
        ensures
            opcode == Opcode::of_wire_code(code),
    {
        match code {
            0 => Some(Opcode::Continuation),
            1 => Some(Opcode::Text),
            2 => Some(Opcode::Binary),
            8 => Some(Opcode::Close),
            9 => Some(Opcode::Ping),
            10 => Some(Opcode::Pong),
            _ => None,
        }
    }
}

/// Every opcode is found again from its wire number, and every wire number
/// that names an opcode is the wire number of that opcode.
pub proof fn lemma_opcode_codes(opcode: Opcode, code: u8)
    ensures
        Opcode::of_wire_code(opcode.wire_code()) == Some(opcode),
        opcode.wire_code() < 16,
        Opcode::of_wire_code(code) == Some(opcode) ==> opcode.wire_code() == code,
{
}

/// A frame as it is held in memory: the payload is always in the clear, and
/// `mask` remembers the key under which it travelled, if it travelled masked.
#[derive(Clone, Debug, PartialEq, Eq)]
pub struct Frame {
    pub opcode: Opcode,
    /// Whether this is the final fragment of a message.
    pub fin: bool,
    pub mask: Option<[u8; 4]>,
    pub payload: Vec<u8>,
}

/// The mathematical value of a [`Frame`].
pub struct FrameView {
    pub opcode: Opcode,
    pub fin: bool,
    /// The four bytes of the masking key, where there is one.
    pub mask: Option<Seq<u8>>,
    pub payload: Seq<u8>,
}

impl View for Frame {
    type V = FrameView;

    open spec fn view(&self) -> FrameView {
        FrameView {
            opcode: self.opcode,
            fin: self.fin,
            mask: match self.mask {
                Some(key) => Some(key@),
                None => None,
            },
            payload: self.payload@,
        }
    }
}

impl FrameView {
    /// The same frame as a server sends it: without a masking key.
    pub open spec fn unmasked(self) -> FrameView {
        FrameView { mask: None, ..self }
    }

    /// A masking key, where present, has four bytes.
    pub open spec fn wf(self) -> bool {
        self.mask matches Some(key) ==> key.len() == 4
    }
}

impl Frame {
    /// An unmasked frame.
    pub fn new(opcode: Opcode, fin: bool, payload: Vec<u8>) -> (frame: Frame)
        ensures
            frame@ == (FrameView { opcode, fin, mask: None, payload: payload@ }),
    {
        Frame { opcode, fin, mask: None, payload }
    }

    /// A final, unmasked text frame that carries `text`.
    pub fn text(text: &str) -> (frame: Frame)
        ensures
            frame@ == (FrameView {
                opcode: Opcode::Text,
                fin: true,
                mask: None,
                payload: text.spec_bytes(),
            }),
    {
        Frame {
            opcode: Opcode::Text,
            fin: true,
            mask: None,
            payload: vstd::slice::slice_to_vec(text.as_bytes()),
        }
    }
}

/// Byte `i` of the payload combined by exclusive or with byte `i mod 4` of the
/// key. Masking and unmasking are this one function.
pub open spec fn xor_mask(payload: Seq<u8>, key: Seq<u8>) -> Seq<u8> {
    Seq::new(payload.len(), |i: int| payload[i] ^ key[i % 4])
}

/// Masking is an involution: masking twice with one key gives the payload back.
pub proof fn lemma_mask_involution(payload: Seq<u8>, key: Seq<u8>)
    ensures
        xor_mask(xor_mask(payload, key), key) == payload,
{
    let once = xor_mask(payload, key);
    let twice = xor_mask(once, key);
    assert forall|i: int| 0 <= i < payload.len() implies twice[i] == payload[i] by {
        let a = payload[i];
        let k = key[i % 4];
        assert((a ^ k) ^ k == a) by (bit_vector);
    }
    assert(twice =~= payload);
}

/// Masks or unmasks `payload` in place under `key`.
pub fn apply_mask(payload: &mut Vec<u8>, key: [u8; 4])
    ensures
        final(payload)@ == xor_mask(old(payload)@, key@),
{
    let n = payload.len();
    let mut i: usize = 0;
    while i < n
        invariant
            i <= n,
            n == payload@.len(),
            n == old(payload)@.len(),
            forall|j: int| 0 <= j < i ==> payload@[j] == old(payload)@[j] ^ key@[j % 4],
            forall|j: int| i <= j < n ==> payload@[j] == old(payload)@[j],
        decreases n - i,
    {
        let b = payload[i] ^ key[i % 4];
        payload.set(i, b);
        i = i + 1;
    }
    assert(payload@ =~= xor_mask(old(payload)@, key@));
}

/// The first byte of a frame: the fin flag in the top bit, the three reserved
/// bits clear, the opcode in the low four bits.
pub open spec fn first_byte(fin: bool, opcode: Opcode) -> u8 {
    if fin {
        (128 + opcode.wire_code()) as u8
    } else {
        opcode.wire_code()
    }
}

/// The `width` bytes that hold `n` in network order, the most significant
/// byte first. Meant for an `n` below 256 to the power of `width`.
pub open spec fn be_bytes(n: nat, width: nat) -> Seq<u8>
    decreases width,
{
    if width == 0 {
        Seq::empty()
    } else {
        be_bytes(n / 0x100, (width - 1) as nat).push((n % 0x100) as u8)
    }
}

/// The number that `bytes` hold in network order.
pub open spec fn be_value(bytes: Seq<u8>) -> nat
    decreases bytes.len(),
{
    if bytes.len() == 0 {
        0
    } else {
        be_value(bytes.drop_last()) * 0x100 + bytes.last() as nat
    }
}

/// How many bytes follow the second byte to hold the payload length, given the
/// seven low bits of that byte.
pub open spec fn extended_len(len7: u8) -> nat {
    if len7 <= 125 {
        0
    } else if len7 == 126 {
        2
    } else {
        8
    }
}

/// The second byte of a frame and the extended length after it: the mask bit
/// on top of the shortest of the three encodings that holds `n`.
pub open spec fn length_bytes(n: nat, masked: bool) -> Seq<u8> {
    let bit: nat = if masked { 128 } else { 0 };
    if n <= 125 {
        seq![(bit + n) as u8]
    } else if n <= 0xFFFF {
        seq![(bit + 126) as u8] + be_bytes(n, 2)
    } else {
        seq![(bit + 127) as u8] + be_bytes(n, 8)
    }
}

/// A frame on the wire. A frame with a key is followed by the key and carries
/// its payload masked under it.
pub open spec fn wire_bytes(frame: FrameView) -> Seq<u8> {
    seq![first_byte(frame.fin, frame.opcode)] + length_bytes(
        frame.payload.len(),
        frame.mask is Some,
    ) + match frame.mask {
        Some(key) => key + xor_mask(frame.payload, key),
        None => frame.payload,
    }
}

/// Appends the `width` low bytes of `n` to `out`, the most significant first.
fn push_be(out: &mut Vec<u8>, n: u64, width: usize)
    requires
        width <= 8,
    ensures
        final(out)@ == old(out)@ + be_bytes(n as nat, width as nat),
    decreases width,
{
    if width > 0 {
        push_be(out, n / 0x100, width - 1);
        out.push((n % 0x100) as u8);
        assert(out@ =~= old(out)@ + be_bytes(n as nat, width as nat));
    } else {
        assert(out@ =~= old(out)@ + be_bytes(n as nat, width as nat));
    }
}

/// Serialises a frame for the server-to-client direction: never masked,
/// whatever key the frame remembers.
pub fn encode(frame: &Frame) -> (bytes: Vec<u8>)
    ensures
        bytes@ == wire_bytes(frame@.unmasked()),
{
    let n = frame.payload.len();
    let code = frame.opcode.code();
    let mut out: Vec<u8> = Vec::new();
    out.push(if frame.fin { 128 + code } else { code });
    let ghost head = out@;
    if n <= 125 {
        out.push(n as u8);
    } else if n <= 0xFFFF {
        out.push(126);
        push_be(&mut out, n as u64, 2);
    } else {
        out.push(127);
        push_be(&mut out, n as u64, 8);
    }
    assert(out@ =~= head + length_bytes(n as nat, false));
    append_bytes(&mut out, frame.payload.as_slice());
    out
}

/// What makes a frame unacceptable.
#[derive(Clone, Copy, Debug, PartialEq, Eq, Structural)]
pub enum ProtocolError {
    /// The low four bits of the first byte name no opcode.
    UnknownOpcode,
    /// A frame without a masking key where only masked frames are accepted.
    UnmaskedFrame,
    /// The declared payload length is over the configured maximum.
    PayloadTooLarge,
}

/// Why no frame came out of a buffer.
#[derive(Clone, Copy, Debug, PartialEq, Eq, Structural)]
pub enum DecodeError {
    /// The buffer holds only the beginning of a frame. This is the ordinary
    /// case under partial reads and no fault of the peer.
    NeedMoreData,
    Protocol(ProtocolError),
}

/// The payload length that the header at the start of `buf` declares.
/// Meant for a buffer that holds the whole length field.
pub open spec fn declared_len(buf: Seq<u8>) -> nat {
    let len7 = (buf[1] % 128) as u8;
    if len7 <= 125 {
        len7 as nat
    } else {
        be_value(buf.subrange(2, 2 + extended_len(len7) as int))
    }
}

/// How many bytes stand before the payload of the frame at the start of `buf`:
/// the two fixed bytes, the extended length and the masking key.
pub open spec fn header_len(buf: Seq<u8>) -> nat {
    let key: nat = if buf[1] >= 128 { 4 } else { 0 };
    2 + extended_len((buf[1] % 128) as u8) + key
}

/// The frame at the start of `buf` and the number of bytes it takes, or the
/// reason why there is none.
///
/// The first byte gives the fin flag (its top bit) and the opcode (its low
/// four bits); the reserved bits between them are not looked at. The second
/// byte gives the mask bit (its top bit) and, in its low seven bits, the
/// payload length or the mark of an extended length, which need not be in
/// its shortest encoding. A fault is reported as soon as the bytes at hand
/// show it: an unknown opcode and a missing key from the first two bytes, a
/// payload over `max_payload` once the length field is whole. Short of a
/// fault, a buffer that does not hold the whole frame calls for more data.
pub open spec fn spec_decode(buf: Seq<u8>, max_payload: nat, require_mask: bool) -> Result<
    (FrameView, nat),
    DecodeError,
> {
    if buf.len() < 2 {
        Err(DecodeError::NeedMoreData)
    } else {
        let masked = buf[1] >= 128;
        let ext = extended_len((buf[1] % 128) as u8);
        let start = header_len(buf);
        let n = declared_len(buf);
        match Opcode::of_wire_code((buf[0] % 16) as u8) {
            None => Err(DecodeError::Protocol(ProtocolError::UnknownOpcode)),
            Some(opcode) => if require_mask && !masked {
                Err(DecodeError::Protocol(ProtocolError::UnmaskedFrame))
            } else if buf.len() < 2 + ext {
                Err(DecodeError::NeedMoreData)
            } else if n > max_payload {
                Err(DecodeError::Protocol(ProtocolError::PayloadTooLarge))
            } else if buf.len() < start + n {
                Err(DecodeError::NeedMoreData)
            } else {
                let raw = buf.subrange(start as int, (start + n) as int);
                let key = buf.subrange(start - 4, start as int);
                Ok(
                    (
                        FrameView {
                            opcode,
                            fin: buf[0] >= 128,
                            mask: if masked { Some(key) } else { None },
                            payload: if masked { xor_mask(raw, key) } else { raw },
                        },
                        start + n,
                    ),
                )
            },
        }
    }
}

proof fn lemma_be_value_2(b: Seq<u8>)
    requires
        b.len() == 2,
    ensures
        be_value(b) == b[0] as nat * 0x100 + b[1] as nat,
{
    reveal_with_fuel(be_value, 3);
    assert(b.drop_last().drop_last().len() == 0);
}

proof fn lemma_be_value_8(b: Seq<u8>)
    requires
        b.len() == 8,
    ensures
        be_value(b) == (((((((b[0] as nat * 0x100 + b[1] as nat) * 0x100 + b[2] as nat) * 0x100
            + b[3] as nat) * 0x100 + b[4] as nat) * 0x100 + b[5] as nat) * 0x100 + b[6] as nat)
            * 0x100 + b[7] as nat),
        be_value(b) <= u64::MAX,
{
    let b7 = b.drop_last();
    let b6 = b7.drop_last();
    let b5 = b6.drop_last();
    let b4 = b5.drop_last();
    let b3 = b4.drop_last();
    let b2 = b3.drop_last();
    let b1 = b2.drop_last();
    let b0 = b1.drop_last();
    assert(be_value(b0) == 0);
    assert(be_value(b1) == b[0] as nat);
    assert(be_value(b2) == be_value(b1) * 0x100 + b[1] as nat);
    assert(be_value(b3) == be_value(b2) * 0x100 + b[2] as nat);
    assert(be_value(b4) == be_value(b3) * 0x100 + b[3] as nat);
    assert(be_value(b5) == be_value(b4) * 0x100 + b[4] as nat);
    assert(be_value(b6) == be_value(b5) * 0x100 + b[5] as nat);
    assert(be_value(b7) == be_value(b6) * 0x100 + b[6] as nat);
    assert(be_value(b) == be_value(b7) * 0x100 + b[7] as nat);
}

/// Reads the payload length that the header at the start of `buf` declares.
fn read_declared_len(buf: &[u8]) -> (declared: u64)
    requires
        buf@.len() >= 2 + extended_len((buf@[1] % 128) as u8),
    ensures
        declared == declared_len(buf@),
{
    let len7 = buf[1] % 128;
    if len7 <= 125 {
        len7 as u64
    } else if len7 == 126 {
        proof {
            lemma_be_value_2(buf@.subrange(2, 4));
        }
        buf[2] as u64 * 0x100 + buf[3] as u64
    } else {
        proof {
            lemma_be_value_8(buf@.subrange(2, 10));
        }
        let mut value: u64 = buf[2] as u64;
        value = value * 0x100 + buf[3] as u64;
        value = value * 0x100 + buf[4] as u64;
        value = value * 0x100 + buf[5] as u64;
        value = value * 0x100 + buf[6] as u64;
        value = value * 0x100 + buf[7] as u64;
        value = value * 0x100 + buf[8] as u64;
        value = value * 0x100 + buf[9] as u64;
        value
    }
}

/// Decodes the frame at the start of `buf`. With `require_mask`, as for what
/// a client sends, a frame without a masking key is refused. The payload of a
/// masked frame comes out unmasked.
pub fn decode(buf: &[u8], max_payload: usize, require_mask: bool) -> (result: Result<
    (Frame, usize),
    DecodeError,
>)
    ensures
        match result {
            Ok((frame, consumed)) => spec_decode(buf@, max_payload as nat, require_mask) == Ok::<
                (FrameView, nat),
                DecodeError,
            >((frame@, consumed as nat)),
            Err(e) => spec_decode(buf@, max_payload as nat, require_mask) == Err::<
                (FrameView, nat),
                DecodeError,
            >(e),
        },
{
    let total = buf.len();
    if total < 2 {
        return Err(DecodeError::NeedMoreData);
    }
    let b0 = buf[0];
    let b1 = buf[1];
    let opcode = match Opcode::from_code(b0 % 16) {
        Some(opcode) => opcode,
        None => {
            return Err(DecodeError::Protocol(ProtocolError::UnknownOpcode));
        },
    };
    let masked = b1 >= 128;
    if require_mask && !masked {
        return Err(DecodeError::Protocol(ProtocolError::UnmaskedFrame));
    }
    let len7 = b1 % 128;
    let ext: usize = if len7 <= 125 {
        0
    } else if len7 == 126 {
        2
    } else {
        8
    };
    if total - 2 < ext {
        return Err(DecodeError::NeedMoreData);
    }
    let declared = read_declared_len(buf);
    if declared > max_payload as u64 {
        return Err(DecodeError::Protocol(ProtocolError::PayloadTooLarge));
    }
    let n = declared as usize;
    let start: usize = 2 + ext + if masked { 4 } else { 0 };
    assert(start == header_len(buf@));
    if total < start || total - start < n {
        return Err(DecodeError::NeedMoreData);
    }
    let mut payload = vstd::slice::slice_to_vec(vstd::slice::slice_subrange(buf, start, start + n));
    let mask = if masked {
        let key: [u8; 4] = [buf[start - 4], buf[start - 3], buf[start - 2], buf[start - 1]];
        assert(key@ =~= buf@.subrange(start - 4, start as int));
        apply_mask(&mut payload, key);
        Some(key)
    } else {
        None
    };
    Ok((Frame { opcode, fin: b0 >= 128, mask, payload }, start + n))
}

/// 256 to the power of `width`.
pub open spec fn pow256(width: nat) -> nat
    decreases width,
{
    if width == 0 {
        1
    } else {
        0x100 * pow256((width - 1) as nat)
    }
}

proof fn lemma_pow256_values()
    ensures
        pow256(2) == 0x1_0000,
        pow256(8) == 0x1_0000_0000_0000_0000,
{
    reveal_with_fuel(pow256, 9);
}

/// A number below 256 to the power of `width` is read back from the `width`
/// bytes that hold it.
pub proof fn lemma_be_round_trip(n: nat, width: nat)
    requires
        n < pow256(width),
    ensures
        be_bytes(n, width).len() == width,
        be_value(be_bytes(n, width)) == n,
    decreases width,
{
    if width > 0 {
        let rest = be_bytes(n / 0x100, (width - 1) as nat);
        lemma_be_round_trip(n / 0x100, (width - 1) as nat);
        assert(be_bytes(n, width).drop_last() =~= rest);
    }
}

proof fn lemma_be_len(n: nat, width: nat)
    ensures
        be_bytes(n, width).len() == width,
    decreases width,
{
    if width > 0 {
        lemma_be_len(n / 0x100, (width - 1) as nat);
    }
}

/// Decoding what a frame looks like on the wire gives the frame back, key and
/// all, and takes every byte of it: for a payload of any length that the
/// maximum admits, masked or not. A frame without a key is refused only where
/// a key is required.
pub proof fn lemma_decode_wire_bytes(frame: FrameView, max_payload: nat, require_mask: bool)
    requires
        frame.wf(),
        frame.payload.len() <= max_payload,
        frame.payload.len() <= u64::MAX,
        require_mask ==> frame.mask is Some,
    ensures
        spec_decode(wire_bytes(frame), max_payload, require_mask) == Ok::<
            (FrameView, nat),
            DecodeError,
        >((frame, wire_bytes(frame).len())),
{
    let buf = wire_bytes(frame);
    let n = frame.payload.len();
    let masked = frame.mask is Some;
    let lb = length_bytes(n, masked);
    lemma_be_len(n, 2);
    lemma_be_len(n, 8);
    lemma_opcode_codes(frame.opcode, 0);
    assert(buf[0] == first_byte(frame.fin, frame.opcode));
    assert(buf[1] == lb[0]);
    let len7 = (buf[1] % 128) as u8;
    let ext = extended_len(len7);
    assert(lb.len() == 1 + ext);
    assert(buf.subrange(2, 2 + ext as int) =~= lb.subrange(1, 1 + ext as int));
    lemma_pow256_values();
    if n <= 125 {
    } else if n <= 0xFFFF {
        lemma_be_round_trip(n, 2);
        assert(lb.subrange(1, 3) =~= be_bytes(n, 2));
    } else {
        lemma_be_round_trip(n, 8);
        assert(lb.subrange(1, 9) =~= be_bytes(n, 8));
    }
    assert(declared_len(buf) == n);
    let start = header_len(buf);
    match frame.mask {
        Some(key) => {
            assert(buf.subrange(start - 4, start as int) =~= key);
            assert(buf.subrange(start as int, (start + n) as int) =~= xor_mask(frame.payload, key));
            lemma_mask_involution(frame.payload, key);
        },
        None => {
            assert(buf.subrange(start as int, (start + n) as int) =~= frame.payload);
        },
    }
}

/// What a server encodes decodes again to the same opcode, fin flag and
/// payload, without a key.
pub proof fn lemma_encode_decode(frame: FrameView, max_payload: nat)
    requires
        frame.payload.len() <= max_payload,
        frame.payload.len() <= u64::MAX,
    ensures
        spec_decode(wire_bytes(frame.unmasked()), max_payload, false) == Ok::<
            (FrameView, nat),
            DecodeError,
        >((frame.unmasked(), wire_bytes(frame.unmasked()).len())),
{
    lemma_decode_wire_bytes(frame.unmasked(), max_payload, false);
}

/// A frame is decoded from its own bytes alone, and from no fewer: where `buf`
/// starts with a whole frame of `n` bytes, every prefix shorter than `n` asks
/// for more data, and every prefix of `n` bytes or more gives that frame and
/// takes `n` bytes.
pub proof fn lemma_decode_prefix(buf: Seq<u8>, max_payload: nat, require_mask: bool, k: int)
    requires
        spec_decode(buf, max_payload, require_mask) is Ok,
        0 <= k <= buf.len(),
    ensures
        ({
            let n = spec_decode(buf, max_payload, require_mask)->Ok_0.1;
            &&& 2 <= n <= buf.len()
            &&& k < n ==> spec_decode(buf.take(k), max_payload, require_mask) == Err::<
                (FrameView, nat),
                DecodeError,
            >(DecodeError::NeedMoreData)
            &&& k >= n ==> spec_decode(buf.take(k), max_payload, require_mask) == spec_decode(
                buf,
                max_payload,
                require_mask,
            )
        }),
{
    let n = spec_decode(buf, max_payload, require_mask)->Ok_0.1;
    let pre = buf.take(k);
    if k >= 2 {
        assert(pre[0] == buf[0]);
        assert(pre[1] == buf[1]);
        let ext = extended_len((buf[1] % 128) as u8);
        let start = header_len(buf);
        if k >= 2 + ext {
            assert(pre.subrange(2, 2 + ext as int) =~= buf.subrange(2, 2 + ext as int));
            if k >= n {
                assert(pre.subrange(start as int, n as int) =~= buf.subrange(start as int, n as int));
                if buf[1] >= 128 {
                    assert(pre.subrange(start - 4, start as int) =~= buf.subrange(
                        start - 4,
                        start as int,
                    ));
                }
            }
        }
    }
}

/// More bytes behind a buffer change nothing once the buffer holds a whole
/// frame or the beginning of one that breaks the protocol: only a call for
/// more data can turn into something else.
pub proof fn lemma_decode_extend(
    buf: Seq<u8>,
    more: Seq<u8>,
    max_payload: nat,
    require_mask: bool,
)
    requires
        spec_decode(buf, max_payload, require_mask) != Err::<(FrameView, nat), DecodeError>(
            DecodeError::NeedMoreData,
        ),
    ensures
        spec_decode(buf + more, max_payload, require_mask) == spec_decode(
            buf,
            max_payload,
            require_mask,
        ),
{
    let long = buf + more;
    assert(long[0] == buf[0]);
    assert(long[1] == buf[1]);
    let ext = extended_len((buf[1] % 128) as u8);
    if buf.len() >= 2 + ext {
        assert(long.subrange(2, 2 + ext as int) =~= buf.subrange(2, 2 + ext as int));
        let start = header_len(buf);
        let n = declared_len(buf);
        if buf.len() >= start + n {
            assert(long.subrange(start as int, (start + n) as int) =~= buf.subrange(
                start as int,
                (start + n) as int,
            ));
            if buf[1] >= 128 {
                assert(long.subrange(start - 4, start as int) =~= buf.subrange(
                    start - 4,
                    start as int,
                ));
            }
        }
    }
}

/// A buffer that calls for more data is shorter than the longest frame: the
/// longest header has 14 bytes.
pub proof fn lemma_need_more_data_is_short(buf: Seq<u8>, max_payload: nat, require_mask: bool)
    requires
        spec_decode(buf, max_payload, require_mask) == Err::<(FrameView, nat), DecodeError>(
            DecodeError::NeedMoreData,
        ),
    ensures
        buf.len() < max_payload + 14,
{
}

/// The values of a run of frames.
pub open spec fn frame_views(frames: Seq<Frame>) -> Seq<FrameView> {
    Seq::new(frames.len(), |i: int| frames[i]@)
}

/// A run of frames on the wire, one after the other, none of them masked.
pub open spec fn wire_all(frames: Seq<FrameView>) -> Seq<u8>
    decreases frames.len(),
{
    if frames.len() == 0 {
        Seq::empty()
    } else {
        wire_all(frames.drop_last()) + wire_bytes(frames.last().unmasked())
    }
}

/// The values of a run of frames with one more frame behind them.
pub proof fn lemma_frame_views_push(frames: Seq<Frame>, frame: Frame)
    ensures
        frame_views(frames.push(frame)) == frame_views(frames).push(frame@),
{
    assert(frame_views(frames.push(frame)) =~= frame_views(frames).push(frame@));
}

/// Frames on the wire take bytes: a run of frames is empty on the wire only
/// if it has no frame.
pub proof fn lemma_wire_all_len(frames: Seq<FrameView>)
    ensures
        frames.len() == 0 <==> wire_all(frames).len() == 0,
    decreases frames.len(),
{
    if frames.len() > 0 {
        lemma_wire_all_len(frames.drop_last());
    }
}

} // verus!
