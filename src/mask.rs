use vstd::prelude::*;

verus! {

/// `payload` XOR'd byte by byte with the repeating 4-byte `mask`.
pub open spec fn masked(payload: Seq<u8>, mask: Seq<u8>) -> Seq<u8> {
    Seq::new(payload.len(), |i: int| payload[i] ^ mask[i % 4])
}

/// `data` after its first `len` bytes, masked, were written `shift` places
/// further on; all other bytes stay as they were.
pub open spec fn shift_masked(data: Seq<u8>, len: int, mask: Seq<u8>, shift: int) -> Seq<u8> {
    Seq::new(
        data.len(),
        |k: int|
            if shift <= k < shift + len {
                data[k - shift] ^ mask[(k - shift) % 4]
            } else {
                data[k]
            },
    )
}

/// The 4-byte mask repeated to the 16 bytes of a block.
pub open spec fn splat16(mask: Seq<u8>) -> Seq<u8> {
    Seq::new(16, |k: int| mask[k % 4])
}

/// `shift_masked` as a block back-end computes it: the bytes of whole
/// 16-byte blocks against the repeated mask, the bytes past the last whole
/// block against the mask itself.
pub open spec fn block_masked(data: Seq<u8>, len: int, mask: Seq<u8>, shift: int) -> Seq<u8> {
    Seq::new(
        data.len(),
        |k: int|
            if shift <= k < shift + len {
                if k - shift < (len / 16) * 16 {
                    data[k - shift] ^ splat16(mask)[(k - shift) % 16]
                } else {
                    data[k - shift] ^ mask[(k - shift) % 4]
                }
            } else {
                data[k]
            },
    )
}

/// The block and the byte-at-a-time back-ends give identical bytes, for
/// every input and every mask.
pub proof fn lemma_backends_agree(data: Seq<u8>, len: int, mask: Seq<u8>, shift: int)
    requires
        0 <= len,
        0 <= shift,
        len + shift <= data.len(),
    ensures
        block_masked(data, len, mask, shift) == shift_masked(data, len, mask, shift),
{
    assert forall|k: int| 0 <= k < data.len() implies block_masked(data, len, mask, shift)[k]
        == shift_masked(data, len, mask, shift)[k] by {
        if shift <= k < shift + len {
            let i = k - shift;
            vstd::arithmetic::div_mod::lemma_mod_mod(i, 4, 4);
            assert((i % 16) % 4 == i % 4);
        }
    }
    assert(block_masked(data, len, mask, shift) =~= shift_masked(data, len, mask, shift));
}

/// The state of a reverse pass that has written the bytes from `from` on.
spec fn shift_masked_from(data: Seq<u8>, from: int, len: int, mask: Seq<u8>, shift: int) -> Seq<
    u8,
> {
    Seq::new(
        data.len(),
        |k: int|
            if shift + from <= k < shift + len {
                data[k - shift] ^ mask[(k - shift) % 4]
            } else {
                data[k]
            },
    )
}

proof fn lemma_low_bits(i: usize)
    ensures
        (i & 3) as int == i as int % 4,
{
    assert((i & 3) == i % 4) by (bit_vector);
}

proof fn lemma_block_lane(base: usize, k: usize)
    requires
        base % 16 == 0,
        k < 16,
    ensures
        (base + k) as int % 4 == k as int % 4,
{
    let q = base as int / 16;
    assert(base as int == 16 * q);
    assert((16 * q + k) % 4 == k as int % 4) by (nonlinear_arith)
        requires
            0 <= k < 16,
            q >= 0,
    ;
}

/// Writes `data[shift + i] = data[i] ^ mask[i % 4]` for each `i < len`,
/// one byte per step from the last index down, so that the source and the
/// destination may overlap.
pub fn mask_scalar(data: &mut [u8], len: usize, mask: [u8; 4], shift: usize)
    requires
        len + shift <= old(data)@.len(),
    ensures
        final(data)@ == shift_masked(old(data)@, len as int, mask@, shift as int),
{
    let ghost start = data@;
    let mut i: usize = len;
    while i > 0
        invariant
            i <= len,
            len + shift <= start.len(),
            data@ == shift_masked_from(start, i as int, len as int, mask@, shift as int),
        decreases i,
    {
        i = i - 1;
        proof {
            lemma_low_bits(i);
        }
        let b = data[i] ^ mask[i & 3];
        data[i + shift] = b;
        assert(data@ =~= shift_masked_from(start, i as int, len as int, mask@, shift as int));
    }
    assert(data@ =~= shift_masked(start, len as int, mask@, shift as int));
}

/// Shift-and-mask computed 16 bytes at a time against the mask repeated to
/// 16 bytes: each block is loaded whole before it is stored. The bytes past
/// the last full block are handled one at a time first.
pub fn mask_blocks(data: &mut [u8], len: usize, mask: [u8; 4], shift: usize)
    requires
        len + shift <= old(data)@.len(),
    ensures
        final(data)@ == block_masked(old(data)@, len as int, mask@, shift as int),
        final(data)@ == shift_masked(old(data)@, len as int, mask@, shift as int),
{
    let ghost start = data@;
    let n: usize = data.len();
    let blocks: usize = len / 16;
    let tail_start: usize = blocks * 16;
    let mut i: usize = len;
    while i > tail_start
        invariant
            tail_start <= i <= len,
            len + shift <= start.len(),
            data@ == shift_masked_from(start, i as int, len as int, mask@, shift as int),
        decreases i,
    {
        i = i - 1;
        proof {
            lemma_low_bits(i);
        }
        let b = data[i] ^ mask[i & 3];
        data[i + shift] = b;
        assert(data@ =~= shift_masked_from(start, i as int, len as int, mask@, shift as int));
    }
    let wide: [u8; 16] = [
        mask[0],
        mask[1],
        mask[2],
        mask[3],
        mask[0],
        mask[1],
        mask[2],
        mask[3],
        mask[0],
        mask[1],
        mask[2],
        mask[3],
        mask[0],
        mask[1],
        mask[2],
        mask[3],
    ];
    assert forall|k: int| 0 <= k < 16 implies wide@[k] == mask@[k % 4] by {}
    let mut c: usize = blocks;
    while c > 0
        invariant
            c <= blocks,
            blocks * 16 <= len,
            len + shift <= start.len(),
            start.len() == n,
            forall|k: int| 0 <= k < 16 ==> wide@[k] == mask@[k % 4],
            data@ == shift_masked_from(start, c * 16, len as int, mask@, shift as int),
        decreases c,
    {
        c = c - 1;
        let base: usize = c * 16;
        assert(base % 16 == 0) by (nonlinear_arith)
            requires
                base == c * 16,
        ;
        let mut lane: [u8; 16] = [0u8; 16];
        let mut k: usize = 0;
        while k < 16
            invariant
                k <= 16,
                base + 16 <= len,
                len + shift <= start.len(),
                data@ == shift_masked_from(start, base + 16, len as int, mask@, shift as int),
                forall|q: int| 0 <= q < k ==> lane@[q] == data@[base + q],
            decreases 16 - k,
        {
            lane[k] = data[base + k];
            k = k + 1;
        }
        let mut k: usize = 0;
        while k < 16
            invariant
                k <= 16,
                base % 16 == 0,
                base + 16 <= len,
                len + shift <= start.len(),
                start.len() == data@.len(),
                start.len() == n,
                forall|q: int| 0 <= q < 16 ==> wide@[q] == mask@[q % 4],
                forall|q: int| 0 <= q < 16 ==> lane@[q] == start[base + q],
                data@ == Seq::new(
                    start.len(),
                    |p: int|
                        if shift + base <= p < shift + base + k || shift + base + 16 <= p < shift
                            + len {
                            start[p - shift] ^ mask@[(p - shift) % 4]
                        } else {
                            start[p]
                        },
                ),
            decreases 16 - k,
        {
            proof {
                lemma_block_lane(base, k);
            }
            data[base + shift + k] = lane[k] ^ wide[k];
            k = k + 1;
            assert(data@ =~= Seq::new(
                start.len(),
                |p: int|
                    if shift + base <= p < shift + base + k || shift + base + 16 <= p < shift
                        + len {
                        start[p - shift] ^ mask@[(p - shift) % 4]
                    } else {
                        start[p]
                    },
            ));
        }
        assert(data@ =~= shift_masked_from(start, c * 16, len as int, mask@, shift as int));
    }
    assert(data@ =~= shift_masked(start, len as int, mask@, shift as int));
    proof {
        lemma_backends_agree(start, len as int, mask@, shift as int);
    }
}

/// Shift-and-mask of the first `len` bytes by `shift` places: blocks of 16
/// for payloads of 16 bytes or more, single bytes otherwise.
pub fn mask_data(data: &mut [u8], len: usize, mask: [u8; 4], shift: usize)
    requires
        len + shift <= old(data)@.len(),
    ensures
        final(data)@ == shift_masked(old(data)@, len as int, mask@, shift as int),
{
    if len >= 16 {
        mask_blocks(data, len, mask, shift);
    } else {
        mask_scalar(data, len, mask, shift);
    }
}

/// Masking twice with the same key gives the payload back.
pub proof fn lemma_masked_twice(payload: Seq<u8>, mask: Seq<u8>)
    ensures
        masked(masked(payload, mask), mask) == payload,
{
    assert forall|i: int| 0 <= i < payload.len() implies masked(masked(payload, mask), mask)[i]
        == payload[i] by {
        let x = payload[i];
        let m = mask[i % 4];
        assert((x ^ m) ^ m == x) by (bit_vector);
    }
    assert(masked(masked(payload, mask), mask) =~= payload);
}

} // verus!
