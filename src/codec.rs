use vstd::prelude::*;

use crate::frame::{
    be_bytes, be_value, encoded_frame, first_byte, header_bytes, header_len_for, length_field,
    pow256,
};
use crate::mask::{mask_data, masked};
use crate::opcode::{is_control_spec, opcode_of, opcode_value, Opcode};

verus! {

/// A rule of the protocol that a peer broke.
#[derive(Clone, Copy, Debug, PartialEq, Eq, Structural)]
pub enum Violation {
    /// RSV1, RSV2 or RSV3 set without a negotiated extension.
    ReservedBits,
    /// Opcode 0x3..=0x7 or 0xB..=0xF.
    ReservedOpcode,
    /// A control frame with FIN clear.
    FragmentedControl,
    /// A control frame with a payload over 125 bytes.
    ControlTooLong,
    /// An extended length that a shorter form could have carried.
    NonMinimalLength,
    /// A 64-bit length with its top bit set.
    LengthTooLarge,
    /// A frame from the server with the MASK bit set.
    MaskedServerFrame,
    /// A frame longer than the configured maximum.
    FrameTooLarge,
    /// A continuation frame with no fragmented message in progress.
    UnexpectedContinuation,
    /// A new data frame while a fragmented message is in progress.
    InterleavedData,
    /// A text message that is not valid UTF-8.
    InvalidUtf8,
    /// A close frame whose body is a single byte.
    InvalidCloseBody,
    /// A close frame whose status code may not appear on the wire.
    InvalidCloseCode,
    /// A close frame whose reason is not valid UTF-8.
    InvalidCloseReason,
}

/// The close status sent in answer to a violation: 1007 for invalid text,
/// 1002 for every other rule.
pub open spec fn violation_close_code(v: Violation) -> u16 {
    match v {
        Violation::InvalidUtf8 | Violation::InvalidCloseReason => 1007,
        _ => 1002,
    }
}

impl Violation {
    pub fn close_code(self) -> (r: u16)
        ensures
            r == violation_close_code(self),
    {
        match self {
            Violation::InvalidUtf8 | Violation::InvalidCloseReason => 1007,
            _ => 1002,
        }
    }
}

/// The decoded header of a received frame.
#[derive(Clone, Copy, Debug)]
pub struct FrameHeader {
    pub fin: bool,
    pub opcode: Opcode,
    pub masked: bool,
    /// Payload length in bytes.
    pub length: u64,
    /// The masking key, present exactly when `masked` is set.
    pub mask: Option<[u8; 4]>,
    /// Bytes taken by the header, key included; the payload follows.
    pub header_len: usize,
}

/// Why a header could not be decoded.
#[derive(Clone, Copy, Debug, PartialEq, Eq, Structural)]
pub enum HeaderError {
    /// The buffer is shorter than the header: this many bytes are needed.
    Incomplete(usize),
    Violation(Violation),
}

pub open spec fn ext_len(len7: u8) -> nat {
    if len7 == 126 {
        2
    } else if len7 == 127 {
        8
    } else {
        0
    }
}

/// What the header at the start of `s` decodes to.
pub open spec fn parse_spec(s: Seq<u8>) -> Result<FrameHeader, HeaderError> {
    if s.len() < 2 {
        Err(HeaderError::Incomplete(2))
    } else {
        let b0 = s[0];
        let b1 = s[1];
        let fin = b0 & 0x80 != 0;
        let masked = b1 & 0x80 != 0;
        let len7 = b1 & 0x7F;
        if b0 & 0x70 != 0 {
            Err(HeaderError::Violation(Violation::ReservedBits))
        } else if opcode_of(b0 & 0x0F) is None {
            Err(HeaderError::Violation(Violation::ReservedOpcode))
        } else {
            let op = opcode_of(b0 & 0x0F)->Some_0;
            let ext = ext_len(len7);
            let h = 2 + ext + if masked {
                4nat
            } else {
                0nat
            };
            if is_control_spec(op) && !fin {
                Err(HeaderError::Violation(Violation::FragmentedControl))
            } else if is_control_spec(op) && len7 > 125 {
                Err(HeaderError::Violation(Violation::ControlTooLong))
            } else if s.len() < h {
                Err(HeaderError::Incomplete(h as usize))
            } else {
                let length = if ext == 0 {
                    len7 as nat
                } else {
                    be_value(s.subrange(2, 2 + ext as int))
                };
                if ext == 2 && length < 126 {
                    Err(HeaderError::Violation(Violation::NonMinimalLength))
                } else if ext == 8 && length < 65536 {
                    Err(HeaderError::Violation(Violation::NonMinimalLength))
                } else if ext == 8 && length >= 0x8000_0000_0000_0000 {
                    Err(HeaderError::Violation(Violation::LengthTooLarge))
                } else {
                    Ok(
                        FrameHeader {
                            fin,
                            opcode: op,
                            masked,
                            length: length as u64,
                            mask: if masked {
                                Some([s[h - 4], s[h - 3], s[h - 2], s[h - 1]])
                            } else {
                                None
                            },
                            header_len: h as usize,
                        },
                    )
                }
            }
        }
    }
}

proof fn lemma_be_value_bound(s: Seq<u8>)
    ensures
        be_value(s) < pow256(s.len()),
    decreases s.len(),
{
    if s.len() > 0 {
        lemma_be_value_bound(s.drop_last());
        let a = be_value(s.drop_last());
        let p = pow256(s.drop_last().len());
        assert(a * 256 + s.last() < 256 * p) by (nonlinear_arith)
            requires
                a < p,
                s.last() < 256,
        ;
    }
}

proof fn lemma_be_round_trip(n: nat, k: nat)
    requires
        n < pow256(k),
    ensures
        be_value(be_bytes(n, k)) == n,
    decreases k,
{
    if k > 0 {
        let p = pow256((k - 1) as nat);
        assert(n / 256 < p) by (nonlinear_arith)
            requires
                n < 256 * p,
        ;
        lemma_be_round_trip(n / 256, (k - 1) as nat);
        let b = be_bytes(n, k);
        assert(b.drop_last() =~= be_bytes(n / 256, (k - 1) as nat));
    }
}

/// Reads the big-endian number in `buf[at..at + k]`.
fn read_be(buf: &[u8], at: usize, k: usize) -> (r: u64)
    requires
        k <= 8,
        at + k <= buf@.len(),
    ensures
        r as nat == be_value(buf@.subrange(at as int, at + k as int)),
{
    let n: usize = buf.len();
    let mut v: u64 = 0;
    let mut i: usize = 0;
    proof {
        lemma_pow256_8();
    }
    while i < k
        invariant
            i <= k <= 8,
            at + k <= buf@.len(),
            buf@.len() == n,
            pow256(8) == 0x1_0000_0000_0000_0000,
            v as nat == be_value(buf@.subrange(at as int, at + i as int)),
        decreases k - i,
    {
        let ghost s = buf@.subrange(at as int, at + i + 1);
        proof {
            assert(s.drop_last() =~= buf@.subrange(at as int, at + i as int));
            lemma_be_value_bound(s);
            assert(s.len() == i + 1);
            assert(pow256(s.len()) <= pow256(8)) by {
                lemma_pow_mono(i as nat + 1, 8);
            }
            lemma_pow_mono(i as nat + 1, 8);
            assert(be_value(s) == v * 256 + buf@[at + i as int]);
            assert(v * 256 + buf@[at + i as int] < 0x1_0000_0000_0000_0000);
        }
        v = v * 256 + buf[at + i] as u64;
        i = i + 1;
    }
    v
}

proof fn lemma_pow256_8()
    ensures
        pow256(8) == 0x1_0000_0000_0000_0000,
{
    reveal_with_fuel(pow256, 9);
}

proof fn lemma_pow_mono(a: nat, b: nat)
    requires
        a <= b,
    ensures
        pow256(a) <= pow256(b),
    decreases b,
{
    if a < b {
        lemma_pow_mono(a, (b - 1) as nat);
    }
}

/// Decodes the header at the start of `buf`, applying the framing rules
/// that hold for every frame.
pub fn parse_header(buf: &[u8]) -> (r: Result<FrameHeader, HeaderError>)
    ensures
        r == parse_spec(buf@),
{
    if buf.len() < 2 {
        return Err(HeaderError::Incomplete(2));
    }
    let b0 = buf[0];
    let b1 = buf[1];
    let fin = b0 & 0x80 != 0;
    let masked = b1 & 0x80 != 0;
    let len7 = b1 & 0x7F;
    if b0 & 0x70 != 0 {
        return Err(HeaderError::Violation(Violation::ReservedBits));
    }
    let op = match Opcode::from_u8(b0 & 0x0F) {
        Some(op) => op,
        None => {
            return Err(HeaderError::Violation(Violation::ReservedOpcode));
        },
    };
    let ext: usize = if len7 == 126 {
        2
    } else if len7 == 127 {
        8
    } else {
        0
    };
    let h: usize = 2 + ext + if masked {
        4
    } else {
        0
    };
    if op.is_control() && !fin {
        return Err(HeaderError::Violation(Violation::FragmentedControl));
    }
    if op.is_control() && len7 > 125 {
        return Err(HeaderError::Violation(Violation::ControlTooLong));
    }
    if buf.len() < h {
        return Err(HeaderError::Incomplete(h));
    }
    let length: u64 = if ext == 0 {
        len7 as u64
    } else {
        read_be(buf, 2, ext)
    };
    if ext == 2 && length < 126 {
        return Err(HeaderError::Violation(Violation::NonMinimalLength));
    }
    if ext == 8 && length < 65536 {
        return Err(HeaderError::Violation(Violation::NonMinimalLength));
    }
    if ext == 8 && length >= 0x8000_0000_0000_0000 {
        return Err(HeaderError::Violation(Violation::LengthTooLarge));
    }
    let mask = if masked {
        Some([buf[h - 4], buf[h - 3], buf[h - 2], buf[h - 1]])
    } else {
        None
    };
    Ok(FrameHeader { fin, opcode: op, masked, length, mask, header_len: h })
}

/// XORs `payload` in place with the repeating 4-byte `mask`; applied to a
/// masked payload it gives the original bytes back.
pub fn apply_mask(payload: &mut [u8], mask: [u8; 4])
    ensures
        final(payload)@ == masked(old(payload)@, mask@),
{
    let len = payload.len();
    mask_data(payload, len, mask, 0);
    assert(payload@ =~= masked(old(payload)@, mask@));
}

proof fn lemma_first_byte_bits(fin: bool, op: Opcode)
    ensures
        (first_byte(fin, op) & 0x80 != 0) == fin,
        first_byte(fin, op) & 0x70 == 0,
        first_byte(fin, op) & 0x0F == opcode_value(op),
{
    let f: u8 = if fin {
        0x80u8
    } else {
        0u8
    };
    let v: u8 = opcode_value(op);
    let b: u8 = first_byte(fin, op);
    assert(b == f + v);
    assert(((b & 0x80) != 0) == (f == 0x80) && (b & 0x70) == 0 && (b & 0x0F) == v) by (bit_vector)
        requires
            f == 0 || f == 0x80,
            v < 16,
            b == f + v,
    ;
}

proof fn lemma_length_byte_bits(len: u8)
    requires
        len < 126,
    ensures
        ((0x80 + len) as u8) & 0x80 != 0,
        ((0x80 + len) as u8) & 0x7F == len,
        (0xFEu8 & 0x80) != 0,
        (0xFEu8 & 0x7F) == 126,
        (0xFFu8 & 0x80) != 0,
        (0xFFu8 & 0x7F) == 127,
{
    let b: u8 = (0x80 + len) as u8;
    assert((b & 0x80) != 0 && (b & 0x7F) == len) by (bit_vector)
        requires
            len < 126,
            b == 0x80 + len,
    ;
    assert((0xFEu8 & 0x80) != 0 && (0xFEu8 & 0x7F) == 126) by (bit_vector);
    assert((0xFFu8 & 0x80) != 0 && (0xFFu8 & 0x7F) == 127) by (bit_vector);
}

/// Decoding an encoded frame gives back its FIN bit, opcode, length and
/// masking key, and unmasking its payload gives back the payload. Control
/// frames take part only where the decoder accepts them: with FIN set and at
/// most 125 bytes.
pub proof fn lemma_round_trip(fin: bool, op: Opcode, payload: Seq<u8>, mask: [u8; 4])
    requires
        payload.len() < 0x8000_0000_0000_0000,
        is_control_spec(op) ==> fin && payload.len() <= 125,
    ensures
        ({
            let e = encoded_frame(fin, op, payload, mask@);
            let h = header_len_for(payload.len());
            &&& parse_spec(e) is Ok
            &&& parse_spec(e)->Ok_0.fin == fin
            &&& parse_spec(e)->Ok_0.opcode == op
            &&& parse_spec(e)->Ok_0.masked
            &&& parse_spec(e)->Ok_0.length == payload.len()
            &&& parse_spec(e)->Ok_0.mask == Some(mask)
            &&& parse_spec(e)->Ok_0.header_len == h
            &&& e.len() == h + payload.len()
            &&& masked(e.subrange(h as int, e.len() as int), mask@) == payload
        }),
{
    let e = encoded_frame(fin, op, payload, mask@);
    let len = payload.len();
    let h = header_len_for(len);
    let lf = length_field(len);
    let hb = header_bytes(fin, op, len, mask@);
    crate::frame::lemma_be_len(len, 2);
    crate::frame::lemma_be_len(len, 8);
    assert(hb.len() == h);
    lemma_first_byte_bits(fin, op);
    lemma_length_byte_bits(if len < 126 {
        len as u8
    } else {
        0u8
    });
    crate::opcode::lemma_opcode_value_round_trip(op);
    assert(e[0] == first_byte(fin, op));
    assert(e[1] == lf[0]);
    let ext: nat = if len < 126 {
        0
    } else if len < 65536 {
        2
    } else {
        8
    };
    assert(ext_len(e[1] & 0x7F) == ext);
    if ext > 0 {
        assert(e.subrange(2, 2 + ext as int) =~= be_bytes(len, ext));
        reveal_with_fuel(pow256, 9);
        lemma_be_round_trip(len, ext);
    }
    assert(e[h - 4] == mask[0]);
    assert(e[h - 3] == mask[1]);
    assert(e[h - 2] == mask[2]);
    assert(e[h - 1] == mask[3]);
    assert([e[h - 4], e[h - 3], e[h - 2], e[h - 1]]@ =~= mask@);
    assert(e.subrange(h as int, e.len() as int) =~= masked(payload, mask@));
    crate::mask::lemma_masked_twice(payload, mask@);
}

/// A control frame (Close, Ping or Pong) whose FIN bit is clear or whose
/// length field exceeds 125 is refused as a protocol violation.
pub proof fn lemma_control_frame_rules(s: Seq<u8>)
    requires
        s.len() >= 2,
        s[0] & 0x70 == 0,
        opcode_of(s[0] & 0x0F) is Some,
        is_control_spec(opcode_of(s[0] & 0x0F)->Some_0),
        s[0] & 0x80 == 0 || s[1] & 0x7F > 125,
    ensures
        parse_spec(s) matches Err(HeaderError::Violation(v)) && (v == Violation::FragmentedControl
            || v == Violation::ControlTooLong),
{
}

/// An encoded frame's length field uses the 7-bit form exactly when the
/// payload is under 126 bytes, the 16-bit form exactly when it is from 126 to
/// 65535 bytes, and the 64-bit form otherwise.
pub proof fn lemma_length_form(fin: bool, op: Opcode, payload: Seq<u8>, mask: [u8; 4])
    ensures
        ({
            let e = encoded_frame(fin, op, payload, mask@);
            let len7 = e[1] & 0x7F;
            &&& (len7 < 126 <==> payload.len() < 126)
            &&& (len7 == 126 <==> 126 <= payload.len() < 65536)
            &&& (len7 == 127 <==> payload.len() >= 65536)
            &&& e[1] & 0x80 != 0
        }),
{
    let len = payload.len();
    lemma_length_byte_bits(if len < 126 {
        len as u8
    } else {
        0u8
    });
}

} // verus!
