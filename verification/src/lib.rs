//! Finds the length of the leading run of single-byte ASCII (values 0..=127)
//! in a byte buffer, and reports the first non-ASCII byte and its offset when
//! the run ends before the buffer does. The scan walks the buffer in 16-byte
//! strides, classifying each stride into a bitmask of non-ASCII lanes, and
//! finishes any remainder shorter than a stride byte by byte.

use vstd::prelude::*;

verus! {

/// Number of bytes classified per chunked step.
pub const STRIDE_SIZE: usize = 16;

/// One less than the stride, for callers that align buffers to it.
pub const ALIGNMENT_MASK: usize = 15;

/// A byte is ASCII when its value is below 128, i.e. its high bit is clear.
pub open spec fn is_ascii_byte(b: u8) -> bool {
    b < 128
}

/// Every byte of the sequence is ASCII.
pub open spec fn seq_is_ascii(s: Seq<u8>) -> bool {
    forall|i: int| 0 <= i < s.len() ==> is_ascii_byte(s[i])
}

/// Length of the longest all-ASCII prefix of the sequence: the number of
/// leading bytes below 128.
pub open spec fn ascii_prefix_len(s: Seq<u8>) -> int
    decreases s.len(),
{
    if s.len() == 0 {
        0
    } else if !is_ascii_byte(s[0]) {
        0
    } else {
        1 + ascii_prefix_len(s.subrange(1, s.len() as int))
    }
}

/// The prefix length lies within the sequence, everything before it is ASCII,
/// and the byte at it (when there is one) is not.
pub proof fn lemma_ascii_prefix_len_bounds(s: Seq<u8>)
    ensures
        0 <= ascii_prefix_len(s) <= s.len(),
        forall|i: int| 0 <= i < ascii_prefix_len(s) ==> is_ascii_byte(s[i]),
        ascii_prefix_len(s) < s.len() ==> !is_ascii_byte(s[ascii_prefix_len(s)]),
    decreases s.len(),
{
    if s.len() == 0 {
    } else if !is_ascii_byte(s[0]) {
    } else {
        let rest = s.subrange(1, s.len() as int);
        lemma_ascii_prefix_len_bounds(rest);
        assert forall|i: int| 0 <= i < ascii_prefix_len(s) implies is_ascii_byte(s[i]) by {
            if i > 0 {
                assert(s[i] == rest[i - 1]);
            }
        }
        if ascii_prefix_len(s) < s.len() {
            assert(s[ascii_prefix_len(s)] == rest[ascii_prefix_len(rest)]);
        }
    }
}

/// Any offset that is preceded only by ASCII bytes and is either the end of
/// the sequence or a non-ASCII byte is the prefix length: the answer is unique.
pub proof fn lemma_ascii_prefix_len_unique(s: Seq<u8>, r: int)
    requires
        0 <= r <= s.len(),
        forall|i: int| 0 <= i < r ==> is_ascii_byte(s[i]),
        r < s.len() ==> !is_ascii_byte(s[r]),
    ensures
        r == ascii_prefix_len(s),
{
    lemma_ascii_prefix_len_bounds(s);
    let p = ascii_prefix_len(s);
    if r < p {
        assert(is_ascii_byte(s[r]));
    } else if p < r {
        assert(is_ascii_byte(s[p]));
    }
}

/// Law: an input made entirely of ASCII bytes has its full length as its
/// ASCII prefix.
pub proof fn lemma_all_ascii_full_length(s: Seq<u8>)
    requires
        seq_is_ascii(s),
    ensures
        ascii_prefix_len(s) == s.len(),
{
    lemma_ascii_prefix_len_unique(s, s.len() as int);
}

/// Law: when some byte of the input is non-ASCII, the prefix length is the
/// offset of the first such byte; every byte before it is ASCII.
pub proof fn lemma_first_non_ascii(s: Seq<u8>)
    requires
        !seq_is_ascii(s),
    ensures
        ascii_prefix_len(s) < s.len(),
        !is_ascii_byte(s[ascii_prefix_len(s)]),
        forall|i: int| 0 <= i < ascii_prefix_len(s) ==> is_ascii_byte(s[i]),
{
    lemma_ascii_prefix_len_bounds(s);
    if ascii_prefix_len(s) == s.len() {
        assert(seq_is_ascii(s));
    }
}

/// Law: the prefix length is a function of the byte contents alone, so the
/// scan's answer cannot depend on where the buffer lives or how it is
/// aligned, and repeating a scan on the same contents repeats the answer.
pub proof fn lemma_content_determined(s: Seq<u8>, t: Seq<u8>)
    requires
        s == t,
    ensures
        ascii_prefix_len(s) == ascii_prefix_len(t),
{
}

/// A 16-byte chunk: the unit the chunked scanner classifies in one step. On
/// hardware with a vector byte-compare this maps to one register; the portable
/// classifier below computes the identical mask lane by lane.
#[allow(non_camel_case_types)]
#[derive(Copy, Clone)]
pub struct u8x16 {
    lanes: [u8; 16],
}

impl View for u8x16 {
    type V = Seq<u8>;

    closed spec fn view(&self) -> Seq<u8> {
        self.lanes@
    }
}

/// Setting bit `i` of a mask makes the mask nonzero and makes bit `i` read
/// back as one.
proof fn lemma_or_bit_set(m: u32, i: u32)
    by (bit_vector)
    requires
        i < 32,
    ensures
        ((m | (1u32 << i)) >> i) & 1u32 == 1u32,
        (m | (1u32 << i)) != 0u32,
{
}

/// Setting bit `i` of a mask leaves every other bit as it was.
proof fn lemma_or_bit_other(m: u32, i: u32, j: u32)
    by (bit_vector)
    requires
        i < 32,
        j < 32,
        j != i,
    ensures
        ((m | (1u32 << i)) >> j) & 1u32 == (m >> j) & 1u32,
{
}

/// Every bit of a zero mask is clear.
proof fn lemma_zero_bit(j: u32)
    by (bit_vector)
    ensures
        (0u32 >> j) & 1u32 == 0u32,
{
}

/// Classify a chunk: bit `i` of the mask is set iff lane `i` of the chunk is
/// non-ASCII (high bit set). Pure and total; the mask is zero exactly when
/// the whole chunk is ASCII, and only its low 16 bits can be set, so callers
/// may recover the first non-ASCII lane as the mask's trailing zero count.
pub fn mask_ascii(s: u8x16) -> (mask: u32)
    ensures
        forall|j: u32| j < 16 ==> ((((#[trigger] (mask >> j)) & 1u32) == 1u32) <==> !is_ascii_byte(
            s@[j as int],
        )),
        forall|j: u32| 16 <= j < 32 ==> ((#[trigger] (mask >> j)) & 1u32) == 0u32,
        (mask == 0) <==> seq_is_ascii(s@),
{
    let mut mask: u32 = 0;
    let mut i: usize = 0;
    proof {
        assert forall|j: u32| j < 32 implies ((#[trigger] (0u32 >> j)) & 1u32) == 0u32 by {
            lemma_zero_bit(j);
        }
    }
    while i < 16
        invariant
            i <= 16,
            forall|j: u32| j < i ==> ((((#[trigger] (mask >> j)) & 1u32) == 1u32)
                <==> !is_ascii_byte(s@[j as int])),
            forall|j: u32| i <= j < 32 ==> ((#[trigger] (mask >> j)) & 1u32) == 0u32,
            (mask == 0) <==> (forall|k: int| 0 <= k < i ==> is_ascii_byte(s@[k])),
        decreases 16 - i,
    {
        let ghost m0 = mask;
        let ghost ii = i as u32;
        if s.lanes[i] >= 128 {
            mask = mask | (1u32 << (i as u32));
            proof {
                lemma_or_bit_set(m0, ii);
                assert forall|j: u32| j < 32 && j != ii implies ((#[trigger] (mask >> j))
                    & 1u32) == (m0 >> j) & 1u32 by {
                    lemma_or_bit_other(m0, ii, j);
                }
                assert(!is_ascii_byte(s@[i as int]));
                assert(!(forall|k: int| 0 <= k < i + 1 ==> is_ascii_byte(s@[k])));
            }
        } else {
            proof {
                assert(is_ascii_byte(s@[i as int]));
                if mask == 0 {
                    assert forall|k: int| 0 <= k < i + 1 implies is_ascii_byte(s@[k]) by {
                        if k < i {
                            assert(is_ascii_byte(s@[k]));
                        }
                    }
                } else {
                    assert(!(forall|k: int| 0 <= k < i ==> is_ascii_byte(s@[k])));
                    let k0 = choose|k: int| 0 <= k < i && !is_ascii_byte(s@[k]);
                    assert(0 <= k0 < i + 1 && !is_ascii_byte(s@[k0]));
                    assert(!(forall|k: int| 0 <= k < i + 1 ==> is_ascii_byte(s@[k])));
                }
            }
        }
        i = i + 1;
    }
    mask
}

/// Read the 16-byte chunk starting at `offset`, which may sit at any byte
/// boundary; the caller proves once that a full stride remains, so the read
/// never passes the end of the buffer.
pub fn load16_unaligned(slice: &[u8], offset: usize) -> (chunk: u8x16)
    requires
        offset + STRIDE_SIZE <= slice@.len(),
    ensures
        chunk@.len() == 16,
        forall|i: int| 0 <= i < 16 ==> chunk@[i] == slice@[offset + i],
{
    u8x16 {
        lanes: [
            slice[offset],
            slice[offset + 1],
            slice[offset + 2],
            slice[offset + 3],
            slice[offset + 4],
            slice[offset + 5],
            slice[offset + 6],
            slice[offset + 7],
            slice[offset + 8],
            slice[offset + 9],
            slice[offset + 10],
            slice[offset + 11],
            slice[offset + 12],
            slice[offset + 13],
            slice[offset + 14],
            slice[offset + 15],
        ],
    }
}

/// Scan the whole buffer for its first non-ASCII byte: `None` when every byte
/// is ASCII, otherwise the byte's value and its offset from the start of the
/// buffer, with everything before that offset ASCII. Walks full 16-byte
/// strides first and finishes any shorter remainder byte by byte.
pub fn validate_ascii(slice: &[u8]) -> (r: Option<(u8, usize)>)
    ensures
        r is None <==> seq_is_ascii(slice@),
        match r {
            Option::None => seq_is_ascii(slice@),
            Option::Some((byte, offset)) => {
                &&& offset < slice@.len()
                &&& slice@[offset as int] == byte
                &&& !is_ascii_byte(byte)
                &&& forall|i: int| 0 <= i < offset ==> is_ascii_byte(slice@[i])
                &&& offset == ascii_prefix_len(slice@)
            },
        },
{
    let len = slice.len();
    let mut offset: usize = 0;
    if STRIDE_SIZE <= len {
        let len_minus_stride = len - STRIDE_SIZE;
        while offset <= len_minus_stride
            invariant
                len == slice@.len(),
                STRIDE_SIZE <= len,
                len_minus_stride == len - STRIDE_SIZE,
                offset <= len,
                forall|i: int| 0 <= i < offset ==> is_ascii_byte(slice@[i]),
            decreases len - offset,
        {
            let chunk = load16_unaligned(slice, offset);
            let mask = mask_ascii(chunk);
            if mask != 0 {
                let tz = mask.trailing_zeros();
                proof {
                    vstd::std_specs::bits::axiom_u32_trailing_zeros(mask);
                    assert(tz < 16) by {
                        assert((mask >> tz) & 1u32 == 1u32);
                    }
                    assert(!is_ascii_byte(chunk@[tz as int]));
                    assert forall|i: int| 0 <= i < offset + tz implies is_ascii_byte(
                        slice@[i],
                    ) by {
                        if offset <= i {
                            let j = (i - offset) as u32;
                            assert((mask >> j) & 1u32 == 0u32);
                            assert(is_ascii_byte(chunk@[j as int]));
                        }
                    }
                }
                let found = offset + tz as usize;
                let non_ascii = slice[found];
                proof {
                    lemma_ascii_prefix_len_unique(slice@, found as int);
                    assert(!seq_is_ascii(slice@)) by {
                        assert(!is_ascii_byte(slice@[found as int]));
                    }
                }
                return Some((non_ascii, found));
            }
            offset = offset + STRIDE_SIZE;
            proof {
                assert forall|i: int| 0 <= i < offset implies is_ascii_byte(slice@[i]) by {
                    if offset - STRIDE_SIZE <= i {
                        assert(chunk@[i - (offset - STRIDE_SIZE)] == slice@[i]);
                    }
                }
            }
        }
    }
    while offset < len
        invariant
            len == slice@.len(),
            offset <= len,
            forall|i: int| 0 <= i < offset ==> is_ascii_byte(slice@[i]),
        decreases len - offset,
    {
        let code_unit = slice[offset];
        if code_unit > 127 {
            proof {
                lemma_ascii_prefix_len_unique(slice@, offset as int);
                assert(!seq_is_ascii(slice@)) by {
                    assert(!is_ascii_byte(slice@[offset as int]));
                }
            }
            return Some((code_unit, offset));
        }
        offset = offset + 1;
    }
    None
}

/// Count of valid leading ASCII bytes of `bytes`: the offset of the first
/// non-ASCII byte when there is one, and the full length otherwise. Total
/// over every input, including the empty one, and a function of the byte
/// contents alone.
pub fn ascii_valid_up_to(bytes: &[u8]) -> (num_valid: usize)
    ensures
        num_valid <= bytes@.len(),
        num_valid == ascii_prefix_len(bytes@),
        forall|i: int| 0 <= i < num_valid ==> is_ascii_byte(bytes@[i]),
        num_valid < bytes@.len() ==> !is_ascii_byte(bytes@[num_valid as int]),
        seq_is_ascii(bytes@) <==> num_valid == bytes@.len(),
{
    match validate_ascii(bytes) {
        None => {
            proof {
                lemma_all_ascii_full_length(bytes@);
            }
            bytes.len()
        },
        Some((_, num_valid)) => num_valid,
    }
}

} // verus!
