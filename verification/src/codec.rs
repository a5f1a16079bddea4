use vstd::prelude::*;
use vstd::slice::slice_subrange;
use crate::error::MerkleError;
use crate::field::{Field, FIELD_SIZE_IN_BITS, FIELD_SIZE_IN_BYTES};
use crate::path::{construct_check, MerklePath, PathView};

verus! {

/// The eight bytes of `x`, least significant first.
pub open spec fn le_bytes_of(x: u64) -> Seq<u8> {
    seq![
        (x % 0x100) as u8,
        (x / 0x100 % 0x100) as u8,
        (x / 0x1_0000 % 0x100) as u8,
        (x / 0x100_0000 % 0x100) as u8,
        (x / 0x1_0000_0000 % 0x100) as u8,
        (x / 0x100_0000_0000 % 0x100) as u8,
        (x / 0x1_0000_0000_0000 % 0x100) as u8,
        (x / 0x100_0000_0000_0000 % 0x100) as u8,
    ]
}

/// The number that the first eight bytes of `s` spell, least significant
/// first.
pub open spec fn le_value_of(s: Seq<u8>) -> u64
    recommends
        s.len() >= 8,
{
    (s[0] as nat + s[1] as nat * 0x100 + s[2] as nat * 0x1_0000 + s[3] as nat * 0x100_0000 + s[4] as nat
        * 0x1_0000_0000 + s[5] as nat * 0x100_0000_0000 + s[6] as nat * 0x1_0000_0000_0000
        + s[7] as nat * 0x100_0000_0000_0000) as u64
}

/// The siblings' canonical encodings, one after the other.
pub open spec fn encode_siblings(siblings: Seq<Field>) -> Seq<u8> {
    Seq::new(
        siblings.len() * FIELD_SIZE_IN_BYTES as nat,
        |i: int| siblings[i / FIELD_SIZE_IN_BYTES as int]@[i % FIELD_SIZE_IN_BYTES as int],
    )
}

/// The binary form of a path: the leaf index as eight little-endian bytes,
/// then each sibling's canonical encoding, level 0 first.
pub open spec fn encode_spec(path: PathView) -> Seq<u8> {
    le_bytes_of(path.leaf_index) + encode_siblings(path.siblings)
}

/// The length of the binary form of a path in a tree of height `depth`:
/// eight bytes and the siblings' bits, rounded up to whole bytes.
pub open spec fn encoded_len(depth: u8) -> nat {
    (8 + (depth as nat * FIELD_SIZE_IN_BITS as nat + 7) / 8) as nat
}

/// The bytes of `bytes` that hold sibling `k`.
pub open spec fn sibling_bytes(bytes: Seq<u8>, k: int) -> Seq<u8> {
    bytes.subrange(
        8 + k * FIELD_SIZE_IN_BYTES as int,
        8 + (k + 1) * FIELD_SIZE_IN_BYTES as int,
    )
}

/// What `bytes` decode to for a tree of height `depth`: `TruncatedInput`
/// where they are fewer than `encoded_len(depth)`; else the leaf index and
/// `depth` siblings read from the front, where those break no rule of the
/// tree, and the first rule broken where they do. Bytes after the first
/// `encoded_len(depth)` are not read.
pub open spec fn decode_spec(depth: u8, bytes: Seq<u8>) -> Result<PathView, MerkleError> {
    if bytes.len() < encoded_len(depth) {
        Err(MerkleError::TruncatedInput)
    } else {
        let leaf_index = le_value_of(bytes.subrange(0, 8));
        match construct_check(depth, leaf_index, depth as nat) {
            Some(e) => Err(e),
            None => Ok(
                PathView {
                    leaf_index,
                    siblings: Seq::new(
                        depth as nat,
                        |k: int| Field::of_bytes(sibling_bytes(bytes, k)),
                    ),
                },
            ),
        }
    }
}

/// `encoded_len` counts eight bytes and one canonical encoding per level.
pub proof fn lemma_encoded_len(depth: u8)
    ensures
        encoded_len(depth) == 8 + depth * FIELD_SIZE_IN_BYTES,
{
}

/// The binary form of a path with `depth` siblings has `encoded_len(depth)`
/// bytes.
pub proof fn lemma_encoding_has_expected_size(depth: u8, path: PathView)
    requires
        path.siblings.len() == depth,
    ensures
        encode_spec(path).len() == encoded_len(depth),
{
}

/// Spelling a number as eight little-endian bytes and reading them back
/// gives the number.
pub proof fn lemma_le_value_of_le_bytes(x: u64)
    ensures
        le_bytes_of(x).len() == 8,
        le_value_of(le_bytes_of(x)) == x,
{
    assert(x % 0x100 + (x / 0x100 % 0x100) * 0x100 + (x / 0x1_0000 % 0x100) * 0x1_0000 + (x
        / 0x100_0000 % 0x100) * 0x100_0000 + (x / 0x1_0000_0000 % 0x100) * 0x1_0000_0000 + (x
        / 0x100_0000_0000 % 0x100) * 0x100_0000_0000 + (x / 0x1_0000_0000_0000 % 0x100)
        * 0x1_0000_0000_0000 + (x / 0x100_0000_0000_0000 % 0x100) * 0x100_0000_0000_0000 == x)
        by (bit_vector);
}

/// Decoding the binary form of a path that breaks no rule gives the path
/// back.
pub proof fn lemma_decode_encode(depth: u8, path: PathView)
    requires
        construct_check(depth, path.leaf_index, path.siblings.len()) is None,
    ensures
        decode_spec(depth, encode_spec(path)) == Ok::<PathView, MerkleError>(path),
{
    let bytes = encode_spec(path);
    lemma_le_value_of_le_bytes(path.leaf_index);
    assert(bytes.subrange(0, 8) =~= le_bytes_of(path.leaf_index));
    let decoded = decode_spec(depth, bytes).unwrap();
    assert forall|k: int| 0 <= k < depth implies decoded.siblings[k] == path.siblings[k] by {
        assert(sibling_bytes(bytes, k) =~= path.siblings[k]@) by {
            path.siblings[k].lemma_view_len();
        }
        path.siblings[k].lemma_of_bytes_view();
    }
    assert(decoded.siblings =~= path.siblings);
}

/// Where bytes decode to a path, its leaf index is spelled by the first
/// eight of them, it has `depth` siblings, and sibling `k` is spelled by its
/// own `FIELD_SIZE_IN_BYTES` bytes after those; the path breaks no rule.
pub proof fn lemma_decoded_path(depth: u8, bytes: Seq<u8>, k: int)
    requires
        decode_spec(depth, bytes) is Ok,
        0 <= k < depth,
    ensures
        decode_spec(depth, bytes).unwrap().leaf_index == le_value_of(bytes.subrange(0, 8)),
        decode_spec(depth, bytes).unwrap().siblings.len() == depth,
        decode_spec(depth, bytes).unwrap().siblings[k]@ == sibling_bytes(bytes, k),
        construct_check(
            depth,
            decode_spec(depth, bytes).unwrap().leaf_index,
            decode_spec(depth, bytes).unwrap().siblings.len(),
        ) is None,
{
    Field::lemma_of_bytes(sibling_bytes(bytes, k));
}

/// Bytes after the first `encoded_len(depth)` change nothing.
pub proof fn lemma_decode_reads_prefix(depth: u8, bytes: Seq<u8>)
    requires
        bytes.len() >= encoded_len(depth),
    ensures
        decode_spec(depth, bytes) == decode_spec(depth, bytes.take(encoded_len(depth) as int)),
{
    let front = bytes.take(encoded_len(depth) as int);
    assert(front.subrange(0, 8) =~= bytes.subrange(0, 8));
    assert forall|k: int| 0 <= k < depth implies sibling_bytes(front, k) == sibling_bytes(
        bytes,
        k,
    ) by {
        assert(sibling_bytes(front, k) =~= sibling_bytes(bytes, k));
    }
    if decode_spec(depth, bytes) is Ok {
        assert(decode_spec(depth, bytes).unwrap().siblings =~= decode_spec(
            depth,
            front,
        ).unwrap().siblings);
    }
}

/// Appends the eight little-endian bytes of `x` to `out`.
fn write_u64_le(x: u64, out: &mut Vec<u8>)
    ensures
        final(out)@ == old(out)@ + le_bytes_of(x),
{
    let ghost before = out@;
    let mut k: u32 = 0;
    while k < 8
        invariant
            k <= 8,
            out@.len() == before.len() + k,
            forall|j: int| 0 <= j < before.len() ==> out@[j] == before[j],
            forall|j: int| 0 <= j < k ==> out@[before.len() + j] == le_bytes_of(x)[j],
        decreases 8 - k,
    {
        let shifted: u64 = x >> (8 * k);
        let low: u64 = shifted & 0xff;
        proof {
            assert(low < 0x100) by (bit_vector)
                requires
                    low == shifted & 0xff,
            ;
            lemma_le_byte(x, k);
        }
        out.push(low as u8);
        k += 1;
    }
    proof {
        assert(out@ =~= before + le_bytes_of(x));
    }
}

/// Shifting and masking reads byte `k` of `x`.
proof fn lemma_le_byte(x: u64, k: u32)
    requires
        k < 8,
    ensures
        ((x >> (8 * k)) & 0xff) == le_bytes_of(x)[k as int],
{
    assert((x >> 0) & 0xff == x % 0x100) by (bit_vector);
    assert((x >> 8) & 0xff == x / 0x100 % 0x100) by (bit_vector);
    assert((x >> 16) & 0xff == x / 0x1_0000 % 0x100) by (bit_vector);
    assert((x >> 24) & 0xff == x / 0x100_0000 % 0x100) by (bit_vector);
    assert((x >> 32) & 0xff == x / 0x1_0000_0000 % 0x100) by (bit_vector);
    assert((x >> 40) & 0xff == x / 0x100_0000_0000 % 0x100) by (bit_vector);
    assert((x >> 48) & 0xff == x / 0x1_0000_0000_0000 % 0x100) by (bit_vector);
    assert((x >> 56) & 0xff == x / 0x100_0000_0000_0000 % 0x100) by (bit_vector);
}

/// Reads a number from the first eight bytes of `bytes`, least significant
/// first.
fn read_u64_le(bytes: &[u8]) -> (x: u64)
    requires
        bytes@.len() >= 8,
    ensures
        x == le_value_of(bytes@),
{
    let mut x: u64 = 0;
    let mut k: usize = 8;
    while k > 0
        invariant
            k <= 8,
            bytes@.len() >= 8,
            x as nat == le_tail(bytes@, k as int),
            x as nat <= le_tail_bound(k as int),
        decreases k,
    {
        k -= 1;
        x = x * 256 + bytes[k] as u64;
    }
    proof {
        reveal_with_fuel(le_tail, 9);
    }
    x
}

/// The number that bytes `k..8` of `s` spell, least significant first.
spec fn le_tail(s: Seq<u8>, k: int) -> nat
    decreases 8 - k,
{
    if k >= 8 || k < 0 {
        0
    } else {
        s[k] as nat + 0x100 * le_tail(s, k + 1)
    }
}

/// The largest number that `8 - k` bytes spell.
spec fn le_tail_bound(k: int) -> nat {
    if k >= 8 {
        0
    } else if k == 7 {
        0xff
    } else if k == 6 {
        0xffff
    } else if k == 5 {
        0xff_ffff
    } else if k == 4 {
        0xffff_ffff
    } else if k == 3 {
        0xff_ffff_ffff
    } else if k == 2 {
        0xffff_ffff_ffff
    } else if k == 1 {
        0xff_ffff_ffff_ffff
    } else {
        0xffff_ffff_ffff_ffff
    }
}

impl<const DEPTH: u8> MerklePath<DEPTH> {
    /// The number of bytes that the binary form of a path of this depth
    /// takes.
    pub fn expected_size() -> (n: usize)
        ensures
            n == encoded_len(DEPTH),
            n == 8 + DEPTH * FIELD_SIZE_IN_BYTES,
    {
        8 + (DEPTH as usize * FIELD_SIZE_IN_BITS + 7) / 8
    }

    /// Writes the Merkle path to a buffer: appends its binary form.
    pub fn write_le(&self, out: &mut Vec<u8>)
        ensures
            final(out)@ == old(out)@ + encode_spec(self@),
    {
        let ghost before = out@;
        write_u64_le(self.leaf_index(), out);
        let siblings = self.siblings();
        let mut k: usize = 0;
        while k < siblings.len()
            invariant
                k <= siblings@.len(),
                siblings@ == self@.siblings,
                out@ == before + le_bytes_of(self@.leaf_index) + encode_siblings(
                    siblings@.take(k as int),
                ),
            decreases siblings@.len() - k,
        {
            siblings[k].write_le(out);
            proof {
                siblings@[k as int].lemma_view_len();
                assert(encode_siblings(siblings@.take(k as int + 1)) =~= encode_siblings(
                    siblings@.take(k as int),
                ) + siblings@[k as int]@);
                assert(out@ =~= before + le_bytes_of(self@.leaf_index) + encode_siblings(
                    siblings@.take(k as int + 1),
                ));
            }
            k += 1;
        }
        proof {
            assert(siblings@.take(k as int) =~= siblings@);
            assert(out@ =~= before + encode_spec(self@));
        }
    }

    /// The binary form of the path, as a new vector. For a path that breaks
    /// no rule it has `expected_size()` bytes.
    pub fn to_bytes_le(&self) -> (bytes: Vec<u8>)
        ensures
            bytes@ == encode_spec(self@),
            self.wf() ==> bytes@.len() == encoded_len(DEPTH),
    {
        let mut bytes: Vec<u8> = Vec::new();
        self.write_le(&mut bytes);
        proof {
            assert(bytes@ =~= encode_spec(self@));
        }
        bytes
    }

    /// Reads in a Merkle path from the front of a buffer: the leaf index,
    /// then `DEPTH` siblings, held to the rules of construction.
    pub fn read_le(bytes: &[u8]) -> (r: Result<Self, MerkleError>)
        ensures
            match decode_spec(DEPTH, bytes@) {
                Ok(path) => r is Ok && r.unwrap()@ == path && r.unwrap().wf(),
                Err(e) => r == Err::<Self, MerkleError>(e),
            },
    {
        if bytes.len() < Self::expected_size() {
            return Err(MerkleError::TruncatedInput);
        }
        let leaf_index = read_u64_le(slice_subrange(bytes, 0, 8));
        let mut siblings: Vec<Field> = Vec::new();
        let mut k: usize = 0;
        while k < DEPTH as usize
            invariant
                k <= DEPTH,
                bytes@.len() >= 8 + DEPTH * FIELD_SIZE_IN_BYTES,
                siblings@.len() == k,
                forall|j: int|
                    0 <= j < k ==> siblings@[j] == Field::of_bytes(sibling_bytes(bytes@, j)),
            decreases DEPTH - k,
        {
            let chunk = slice_subrange(bytes, 8 + k * 32, 8 + (k + 1) * 32);
            let sibling = Field::from_bytes_le(chunk).unwrap();
            siblings.push(sibling);
            k += 1;
        }
        proof {
            assert(siblings@ =~= Seq::new(
                DEPTH as nat,
                |j: int| Field::of_bytes(sibling_bytes(bytes@, j)),
            ));
        }
        Self::try_from((leaf_index, siblings))
    }
}

} // verus!
