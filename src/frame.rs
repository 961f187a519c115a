use vstd::prelude::*;

use crate::mask::{mask_data, masked};
use crate::opcode::{opcode_value, Opcode};

verus! {

/// Two header bytes and the 4-byte masking key of a control frame.
pub const CONTROL_HEADER_LEN: usize = 6;

pub const MASK_BIT: u8 = 0x80;

/// The kind of a complete data message.
#[derive(Clone, Copy, Debug, PartialEq, Eq, Structural)]
pub enum Message {
    Binary,
    Text,
}

impl Message {
    pub fn is_binary(self) -> (r: bool)
        ensures
            r == (self is Binary),
    {
        matches!(self, Message::Binary)
    }

    pub fn is_text(self) -> (r: bool)
        ensures
            r == (self is Text),
    {
        matches!(self, Message::Text)
    }
}

/// The FIN bit and opcode of a frame to be sent.
#[derive(Clone, Copy, Debug, PartialEq, Eq, Structural)]
pub struct Frame {
    pub fin: bool,
    pub opcode: Opcode,
}

pub open spec fn pow256(k: nat) -> nat
    decreases k,
{
    if k == 0 {
        1
    } else {
        256 * pow256((k - 1) as nat)
    }
}

/// The last `k` base-256 digits of `n`, most significant first.
pub open spec fn be_bytes(n: nat, k: nat) -> Seq<u8>
    decreases k,
{
    if k == 0 {
        seq![]
    } else {
        be_bytes(n / 256, (k - 1) as nat).push((n % 256) as u8)
    }
}

/// The number whose big-endian digits are `s`.
pub open spec fn be_value(s: Seq<u8>) -> nat
    decreases s.len(),
{
    if s.len() == 0 {
        0
    } else {
        be_value(s.drop_last()) * 256 + s.last() as nat
    }
}

/// Header length of a masked frame: 6 with the 7-bit length form, 8 with
/// the 16-bit form, 14 with the 64-bit form.
pub open spec fn header_len_for(len: nat) -> nat {
    if len < 126 {
        6
    } else if len < 65536 {
        8
    } else {
        14
    }
}

/// First header byte: FIN in the top bit, the opcode in the low four.
pub open spec fn first_byte(fin: bool, op: Opcode) -> u8 {
    ((if fin {
        0x80u8
    } else {
        0u8
    }) + opcode_value(op)) as u8
}

/// The masked length field: the 7-bit form below 126, the 126 marker and a
/// 16-bit length below 65536, the 127 marker and a 64-bit length otherwise.
pub open spec fn length_field(len: nat) -> Seq<u8> {
    if len < 126 {
        seq![(0x80 + len) as u8]
    } else if len < 65536 {
        seq![0xFEu8] + be_bytes(len, 2)
    } else {
        seq![0xFFu8] + be_bytes(len, 8)
    }
}

pub open spec fn header_bytes(fin: bool, op: Opcode, len: nat, mask: Seq<u8>) -> Seq<u8> {
    seq![first_byte(fin, op)] + length_field(len) + mask
}

/// A complete client frame: header, masking key, masked payload.
pub open spec fn encoded_frame(fin: bool, op: Opcode, payload: Seq<u8>, mask: Seq<u8>) -> Seq<u8> {
    header_bytes(fin, op, payload.len(), mask) + masked(payload, mask)
}

proof fn lemma_header_len(fin: bool, op: Opcode, len: nat, mask: Seq<u8>)
    requires
        mask.len() == 4,
    ensures
        header_bytes(fin, op, len, mask).len() == header_len_for(len),
{
    lemma_be_len(len, 2);
    lemma_be_len(len, 8);
}

/// Writes the last `k` base-256 digits of `value` at `data[at..at + k]`.
fn write_be(data: &mut [u8], at: usize, value: u64, k: usize)
    requires
        at + k <= old(data)@.len(),
    ensures
        final(data)@ == old(data)@.take(at as int) + be_bytes(value as nat, k as nat) + old(
            data,
        )@.skip(at + k),
{
    let ghost start = data@;
    let n: usize = data.len();
    let mut v: u64 = value;
    let mut i: usize = k;
    while i > 0
        invariant
            i <= k,
            at + k <= start.len(),
            data@.len() == start.len(),
            start.len() == n,
            data@.take(at + i as int) == start.take(at + i as int),
            data@.skip(at + k) == start.skip(at + k),
            be_bytes(value as nat, k as nat) == be_bytes(v as nat, i as nat) + data@.subrange(
                at + i as int,
                at + k as int,
            ),
        decreases i,
    {
        let ghost before = data@;
        let ghost vi = v;
        data[at + i - 1] = (v % 256) as u8;
        v = v / 256;
        i = i - 1;
        proof {
            assert(be_bytes(vi as nat, (i + 1) as nat) == be_bytes(v as nat, i as nat).push(
                (vi % 256) as u8,
            ));
            assert(data@.subrange(at + i as int, at + k as int) =~= seq![(vi % 256) as u8]
                + before.subrange(at + i + 1, at + k as int));
            assert(be_bytes(v as nat, i as nat) + data@.subrange(at + i as int, at + k as int)
                =~= be_bytes(v as nat, i as nat).push((vi % 256) as u8) + before.subrange(
                at + i + 1,
                at + k as int,
            ));
            assert(data@.take(at + i as int) =~= before.take(at + i as int));
            assert(data@.skip(at + k) =~= before.skip(at + k));
        }
    }
    assert(data@ =~= data@.take(at as int) + data@.subrange(at as int, at + k as int) + data@.skip(
        at + k,
    ));
}

/// Writes the 4-byte masking key at `data[at..at + 4]`.
fn write_key(data: &mut [u8], at: usize, mask: [u8; 4])
    requires
        at + 4 <= old(data)@.len(),
    ensures
        final(data)@ == old(data)@.take(at as int) + mask@ + old(data)@.skip(at + 4),
{
    let ghost start = data@;
    data[at] = mask[0];
    data[at + 1] = mask[1];
    data[at + 2] = mask[2];
    data[at + 3] = mask[3];
    assert(data@ =~= start.take(at as int) + mask@ + start.skip(at + 4));
}

pub(crate) proof fn lemma_be_len(n: nat, k: nat)
    ensures
        be_bytes(n, k).len() == k,
    decreases k,
{
    if k > 0 {
        lemma_be_len(n / 256, (k - 1) as nat);
    }
}

/// Writes the header of a masked frame with a payload of `len` bytes at the
/// start of `data`, and leaves the rest of `data` as it was.
fn write_header(data: &mut [u8], fin: bool, opcode: Opcode, len: usize, mask: [u8; 4]) -> (h: usize)
    requires
        header_len_for(len as nat) <= old(data)@.len(),
    ensures
        h == header_len_for(len as nat),
        final(data)@ == header_bytes(fin, opcode, len as nat, mask@) + old(data)@.skip(h as int),
{
    let ghost start = data@;
    let fb: u8 = (if fin {
        0x80u8
    } else {
        0u8
    }) + opcode.as_u8();
    data[0] = fb;
    let h: usize;
    let ghost lf: Seq<u8>;
    if len < 126 {
        data[1] = MASK_BIT + len as u8;
        h = 6;
        proof {
            lf = seq![(0x80 + len) as u8];
        }
    } else if len < 65536 {
        data[1] = MASK_BIT | 126;
        write_be(data, 2, len as u64, 2);
        h = 8;
        proof {
            assert((MASK_BIT | 126) == 0xFEu8) by (bit_vector);
            lf = seq![0xFEu8] + be_bytes(len as nat, 2);
        }
    } else {
        data[1] = MASK_BIT | 127;
        write_be(data, 2, len as u64, 8);
        h = 14;
        proof {
            assert((MASK_BIT | 127) == 0xFFu8) by (bit_vector);
            lf = seq![0xFFu8] + be_bytes(len as nat, 8);
        }
    }
    proof {
        lemma_be_len(len as nat, 2);
        lemma_be_len(len as nat, 8);
        assert(lf == length_field(len as nat));
        assert(lf.len() + 5 == h);
        assert(data@.len() == start.len());
        assert(data@.take(h - 4) =~= seq![fb] + lf);
        assert(data@.skip(h - 4) =~= start.skip(h - 4));
    }
    write_key(data, h - 4, mask);
    proof {
        assert(data@ =~= seq![fb] + lf + mask@ + start.skip(h as int));
    }
    h
}

impl Frame {
    pub const CONTROL_HEADER_LEN: usize = CONTROL_HEADER_LEN;

    /// Encodes a control frame in place. The payload (at most 125 bytes)
    /// occupies all of `data` but its last `CONTROL_HEADER_LEN` bytes, which
    /// are room for the header; afterwards `data` holds the whole frame.
    pub fn encode_control_slice(self, data: &mut [u8], mask: [u8; 4])
        requires
            CONTROL_HEADER_LEN <= old(data)@.len() <= CONTROL_HEADER_LEN + 125,
        ensures
            final(data)@ == encoded_frame(
                self.fin,
                self.opcode,
                old(data)@.take(old(data)@.len() - CONTROL_HEADER_LEN),
                mask@,
            ),
    {
        let ghost start = data@;
        let data_len: usize = data.len() - CONTROL_HEADER_LEN;
        mask_data(data, data_len, mask, CONTROL_HEADER_LEN);
        let ghost mid = data@;
        write_header(data, self.fin, self.opcode, data_len, mask);
        proof {
            let payload = start.take(data_len as int);
            assert(mid.skip(6) =~= masked(payload, mask@));
            assert(data@ =~= encoded_frame(self.fin, self.opcode, payload, mask@));
        }
    }

    /// Encodes a frame in place: `data` holds the payload on entry and the
    /// whole frame (header, key, masked payload) on return.
    pub fn encode_vec(self, data: &mut Vec<u8>, mask: [u8; 4])
        requires
            old(data)@.len() + 14 <= usize::MAX,
        ensures
            final(data)@ == encoded_frame(self.fin, self.opcode, old(data)@, mask@),
            final(data)@.len() == header_len_for(old(data)@.len()) + old(data)@.len(),
    {
        let ghost start = data@;
        let data_len: usize = data.len();
        let header_len: usize = if data_len < 126 {
            6
        } else if data_len < 65536 {
            8
        } else {
            14
        };
        data.resize(data_len + header_len, 0u8);
        assert(data@.take(data_len as int) =~= start);
        let slice = data.as_mut_slice();
        mask_data(slice, data_len, mask, header_len);
        let ghost mid = slice@;
        let h = write_header(slice, self.fin, self.opcode, data_len, mask);
        proof {
            lemma_header_len(self.fin, self.opcode, data_len as nat, mask@);
            assert(mid.skip(h as int) =~= masked(start, mask@));
            assert(slice@ =~= encoded_frame(self.fin, self.opcode, start, mask@));
        }
    }
}

} // verus!
