//! Plain-value model of the transactions the pool stores and of the
//! identifiers they refer to.

use vstd::prelude::*;

verus! {

/// A 256-bit identifier, held as its two big-endian halves.
///
/// Comparing `(hi, lo)` pairs orders identifiers exactly as comparing their
/// 32 bytes lexicographically does.
#[derive(Clone, Copy, Debug, PartialEq, Eq, Structural, Hash)]
pub struct Bytes32 {
    pub hi: u128,
    pub lo: u128,
}

/// Identifier of a transaction.
pub type TxId = Bytes32;

/// Identifier of a contract.
pub type ContractId = Bytes32;

/// Identifier of a blob.
pub type BlobId = Bytes32;

/// Nonce of a relayed message.
pub type Nonce = Bytes32;

/// Owner of a coin, or sender or recipient of a message.
pub type Address = Bytes32;

/// Identifier of an asset.
pub type AssetId = Bytes32;

/// Handle of a transaction stored in the pool.
pub type StorageIndex = usize;

impl Bytes32 {
    /// Strict order on identifiers: the order of the 256-bit numbers.
    pub open spec fn precedes(self, other: Bytes32) -> bool {
        self.hi < other.hi || (self.hi == other.hi && self.lo < other.lo)
    }

    /// The identifier as a natural number.
    pub open spec fn value(self) -> nat {
        (self.hi * 0x1_0000_0000_0000_0000_0000_0000_0000_0000 + self.lo) as nat
    }

    /// The identifier made of the two given halves.
    pub fn new(hi: u128, lo: u128) -> (id: Bytes32)
        ensures
            id.hi == hi,
            id.lo == lo,
    {
        Bytes32 { hi, lo }
    }

    /// The all-zero identifier.
    pub fn zeroed() -> (id: Bytes32)
        ensures
            id.hi == 0,
            id.lo == 0,
    {
        Bytes32 { hi: 0, lo: 0 }
    }

    /// The halves of the identifier with the given 32 bytes.
    pub fn from_bytes(bytes: [u8; 32]) -> (id: Bytes32)
        ensures
            id.hi == be_u128(bytes@, 0),
            id.lo == be_u128(bytes@, 16),
    {
        Bytes32 { hi: be_half(&bytes, 0), lo: be_half(&bytes, 16) }
    }

    /// The 32 bytes of the identifier.
    pub fn to_bytes(&self) -> (bytes: [u8; 32])
        ensures
            forall|i: int| 0 <= i < 16 ==> #[trigger] bytes@[i] == byte_of(self.hi, i),
            forall|i: int| 16 <= i < 32 ==> #[trigger] bytes@[i] == byte_of(self.lo, i - 16),
    {
        let mut bytes: [u8; 32] = [0u8; 32];
        let mut i: usize = 0;
        while i < 16
            invariant
                0 <= i <= 16,
                forall|j: int| 0 <= j < i ==> #[trigger] bytes@[j] == byte_of(self.hi, j),
                forall|j: int| 16 <= j < 16 + i ==> #[trigger] bytes@[j] == byte_of(self.lo, j - 16),
            decreases 16 - i,
        {
            bytes[i] = nth_byte(self.hi, i);
            bytes[i + 16] = nth_byte(self.lo, i);
            i += 1;
        }
        bytes
    }

    /// Whether `self` comes strictly before `other`.
    pub fn lt(&self, other: &Bytes32) -> (r: bool)
        ensures
            r == self.precedes(*other),
    {
        self.hi < other.hi || (self.hi == other.hi && self.lo < other.lo)
    }
}

/// The number that 16 bytes of `bytes`, from position `from` on, are in
/// big-endian notation.
pub open spec fn be_u128(bytes: Seq<u8>, from: int) -> u128 {
    (bytes[from] as u128) << 120 | (bytes[from + 1] as u128) << 112 | (bytes[from + 2] as u128)
        << 104 | (bytes[from + 3] as u128) << 96 | (bytes[from + 4] as u128) << 88 | (bytes[from
        + 5] as u128) << 80 | (bytes[from + 6] as u128) << 72 | (bytes[from + 7] as u128) << 64 | (
    bytes[from + 8] as u128) << 56 | (bytes[from + 9] as u128) << 48 | (bytes[from + 10] as u128)
        << 40 | (bytes[from + 11] as u128) << 32 | (bytes[from + 12] as u128) << 24 | (bytes[from
        + 13] as u128) << 16 | (bytes[from + 14] as u128) << 8 | (bytes[from + 15] as u128)
}

/// The byte at position `i` of the big-endian notation of `half`.
pub open spec fn byte_of(half: u128, i: int) -> u8 {
    ((half >> ((120 - 8 * i) as u128)) & 0xff) as u8
}

fn be_half(bytes: &[u8; 32], from: usize) -> (half: u128)
    requires
        from == 0 || from == 16,
    ensures
        half == be_u128(bytes@, from as int),
{
    (bytes[from] as u128) << 120 | (bytes[from + 1] as u128) << 112 | (bytes[from + 2] as u128)
        << 104 | (bytes[from + 3] as u128) << 96 | (bytes[from + 4] as u128) << 88 | (bytes[from
        + 5] as u128) << 80 | (bytes[from + 6] as u128) << 72 | (bytes[from + 7] as u128) << 64 | (
    bytes[from + 8] as u128) << 56 | (bytes[from + 9] as u128) << 48 | (bytes[from + 10] as u128)
        << 40 | (bytes[from + 11] as u128) << 32 | (bytes[from + 12] as u128) << 24 | (bytes[from
        + 13] as u128) << 16 | (bytes[from + 14] as u128) << 8 | (bytes[from + 15] as u128)
}

fn nth_byte(half: u128, i: usize) -> (byte: u8)
    requires
        i < 16,
    ensures
        byte == byte_of(half, i as int),
{
    let shift: u128 = (120 - 8 * i) as u128;
    let masked: u128 = (half >> shift) & 0xff;
    proof {
        assert((half >> shift) & 0xff <= 0xff) by (bit_vector);
    }
    masked as u8
}

proof fn lemma_word_bytes(b0: u8, b1: u8, b2: u8, b3: u8, b4: u8, b5: u8, b6: u8, b7: u8, b8: u8, b9: u8, b10: u8, b11: u8, b12: u8, b13: u8, b14: u8, b15: u8, w: u128)
    requires
        w == (b0 as u128) << 120 | (b1 as u128) << 112 | (b2 as u128) << 104 | (b3 as u128) << 96 | (b4 as u128) << 88 | (b5 as u128) << 80 | (b6 as u128) << 72 | (b7 as u128) << 64 | (b8 as u128) << 56 | (b9 as u128) << 48 | (b10 as u128) << 40 | (b11 as u128) << 32 | (b12 as u128) << 24 | (b13 as u128) << 16 | (b14 as u128) << 8 | (b15 as u128),
    ensures
        ((w >> 120u128) & 0xff) as u8 == b0,
        ((w >> 112u128) & 0xff) as u8 == b1,
        ((w >> 104u128) & 0xff) as u8 == b2,
        ((w >> 96u128) & 0xff) as u8 == b3,
        ((w >> 88u128) & 0xff) as u8 == b4,
        ((w >> 80u128) & 0xff) as u8 == b5,
        ((w >> 72u128) & 0xff) as u8 == b6,
        ((w >> 64u128) & 0xff) as u8 == b7,
        ((w >> 56u128) & 0xff) as u8 == b8,
        ((w >> 48u128) & 0xff) as u8 == b9,
        ((w >> 40u128) & 0xff) as u8 == b10,
        ((w >> 32u128) & 0xff) as u8 == b11,
        ((w >> 24u128) & 0xff) as u8 == b12,
        ((w >> 16u128) & 0xff) as u8 == b13,
        ((w >> 8u128) & 0xff) as u8 == b14,
        ((w >> 0u128) & 0xff) as u8 == b15,
{
    assert(((w >> 120u128) & 0xff) as u8 == b0) by (bit_vector)
        requires
            w == (b0 as u128) << 120 | (b1 as u128) << 112 | (b2 as u128) << 104 | (b3 as u128) << 96 | (b4 as u128) << 88 | (b5 as u128) << 80 | (b6 as u128) << 72 | (b7 as u128) << 64 | (b8 as u128) << 56 | (b9 as u128) << 48 | (b10 as u128) << 40 | (b11 as u128) << 32 | (b12 as u128) << 24 | (b13 as u128) << 16 | (b14 as u128) << 8 | (b15 as u128),
    ;
    assert(((w >> 112u128) & 0xff) as u8 == b1) by (bit_vector)
        requires
            w == (b0 as u128) << 120 | (b1 as u128) << 112 | (b2 as u128) << 104 | (b3 as u128) << 96 | (b4 as u128) << 88 | (b5 as u128) << 80 | (b6 as u128) << 72 | (b7 as u128) << 64 | (b8 as u128) << 56 | (b9 as u128) << 48 | (b10 as u128) << 40 | (b11 as u128) << 32 | (b12 as u128) << 24 | (b13 as u128) << 16 | (b14 as u128) << 8 | (b15 as u128),
    ;
    assert(((w >> 104u128) & 0xff) as u8 == b2) by (bit_vector)
        requires
            w == (b0 as u128) << 120 | (b1 as u128) << 112 | (b2 as u128) << 104 | (b3 as u128) << 96 | (b4 as u128) << 88 | (b5 as u128) << 80 | (b6 as u128) << 72 | (b7 as u128) << 64 | (b8 as u128) << 56 | (b9 as u128) << 48 | (b10 as u128) << 40 | (b11 as u128) << 32 | (b12 as u128) << 24 | (b13 as u128) << 16 | (b14 as u128) << 8 | (b15 as u128),
    ;
    assert(((w >> 96u128) & 0xff) as u8 == b3) by (bit_vector)
        requires
            w == (b0 as u128) << 120 | (b1 as u128) << 112 | (b2 as u128) << 104 | (b3 as u128) << 96 | (b4 as u128) << 88 | (b5 as u128) << 80 | (b6 as u128) << 72 | (b7 as u128) << 64 | (b8 as u128) << 56 | (b9 as u128) << 48 | (b10 as u128) << 40 | (b11 as u128) << 32 | (b12 as u128) << 24 | (b13 as u128) << 16 | (b14 as u128) << 8 | (b15 as u128),
    ;
    assert(((w >> 88u128) & 0xff) as u8 == b4) by (bit_vector)
        requires
            w == (b0 as u128) << 120 | (b1 as u128) << 112 | (b2 as u128) << 104 | (b3 as u128) << 96 | (b4 as u128) << 88 | (b5 as u128) << 80 | (b6 as u128) << 72 | (b7 as u128) << 64 | (b8 as u128) << 56 | (b9 as u128) << 48 | (b10 as u128) << 40 | (b11 as u128) << 32 | (b12 as u128) << 24 | (b13 as u128) << 16 | (b14 as u128) << 8 | (b15 as u128),
    ;
    assert(((w >> 80u128) & 0xff) as u8 == b5) by (bit_vector)
        requires
            w == (b0 as u128) << 120 | (b1 as u128) << 112 | (b2 as u128) << 104 | (b3 as u128) << 96 | (b4 as u128) << 88 | (b5 as u128) << 80 | (b6 as u128) << 72 | (b7 as u128) << 64 | (b8 as u128) << 56 | (b9 as u128) << 48 | (b10 as u128) << 40 | (b11 as u128) << 32 | (b12 as u128) << 24 | (b13 as u128) << 16 | (b14 as u128) << 8 | (b15 as u128),
    ;
    assert(((w >> 72u128) & 0xff) as u8 == b6) by (bit_vector)
        requires
            w == (b0 as u128) << 120 | (b1 as u128) << 112 | (b2 as u128) << 104 | (b3 as u128) << 96 | (b4 as u128) << 88 | (b5 as u128) << 80 | (b6 as u128) << 72 | (b7 as u128) << 64 | (b8 as u128) << 56 | (b9 as u128) << 48 | (b10 as u128) << 40 | (b11 as u128) << 32 | (b12 as u128) << 24 | (b13 as u128) << 16 | (b14 as u128) << 8 | (b15 as u128),
    ;
    assert(((w >> 64u128) & 0xff) as u8 == b7) by (bit_vector)
        requires
            w == (b0 as u128) << 120 | (b1 as u128) << 112 | (b2 as u128) << 104 | (b3 as u128) << 96 | (b4 as u128) << 88 | (b5 as u128) << 80 | (b6 as u128) << 72 | (b7 as u128) << 64 | (b8 as u128) << 56 | (b9 as u128) << 48 | (b10 as u128) << 40 | (b11 as u128) << 32 | (b12 as u128) << 24 | (b13 as u128) << 16 | (b14 as u128) << 8 | (b15 as u128),
    ;
    assert(((w >> 56u128) & 0xff) as u8 == b8) by (bit_vector)
        requires
            w == (b0 as u128) << 120 | (b1 as u128) << 112 | (b2 as u128) << 104 | (b3 as u128) << 96 | (b4 as u128) << 88 | (b5 as u128) << 80 | (b6 as u128) << 72 | (b7 as u128) << 64 | (b8 as u128) << 56 | (b9 as u128) << 48 | (b10 as u128) << 40 | (b11 as u128) << 32 | (b12 as u128) << 24 | (b13 as u128) << 16 | (b14 as u128) << 8 | (b15 as u128),
    ;
    assert(((w >> 48u128) & 0xff) as u8 == b9) by (bit_vector)
        requires
            w == (b0 as u128) << 120 | (b1 as u128) << 112 | (b2 as u128) << 104 | (b3 as u128) << 96 | (b4 as u128) << 88 | (b5 as u128) << 80 | (b6 as u128) << 72 | (b7 as u128) << 64 | (b8 as u128) << 56 | (b9 as u128) << 48 | (b10 as u128) << 40 | (b11 as u128) << 32 | (b12 as u128) << 24 | (b13 as u128) << 16 | (b14 as u128) << 8 | (b15 as u128),
    ;
    assert(((w >> 40u128) & 0xff) as u8 == b10) by (bit_vector)
        requires
            w == (b0 as u128) << 120 | (b1 as u128) << 112 | (b2 as u128) << 104 | (b3 as u128) << 96 | (b4 as u128) << 88 | (b5 as u128) << 80 | (b6 as u128) << 72 | (b7 as u128) << 64 | (b8 as u128) << 56 | (b9 as u128) << 48 | (b10 as u128) << 40 | (b11 as u128) << 32 | (b12 as u128) << 24 | (b13 as u128) << 16 | (b14 as u128) << 8 | (b15 as u128),
    ;
    assert(((w >> 32u128) & 0xff) as u8 == b11) by (bit_vector)
        requires
            w == (b0 as u128) << 120 | (b1 as u128) << 112 | (b2 as u128) << 104 | (b3 as u128) << 96 | (b4 as u128) << 88 | (b5 as u128) << 80 | (b6 as u128) << 72 | (b7 as u128) << 64 | (b8 as u128) << 56 | (b9 as u128) << 48 | (b10 as u128) << 40 | (b11 as u128) << 32 | (b12 as u128) << 24 | (b13 as u128) << 16 | (b14 as u128) << 8 | (b15 as u128),
    ;
    assert(((w >> 24u128) & 0xff) as u8 == b12) by (bit_vector)
        requires
            w == (b0 as u128) << 120 | (b1 as u128) << 112 | (b2 as u128) << 104 | (b3 as u128) << 96 | (b4 as u128) << 88 | (b5 as u128) << 80 | (b6 as u128) << 72 | (b7 as u128) << 64 | (b8 as u128) << 56 | (b9 as u128) << 48 | (b10 as u128) << 40 | (b11 as u128) << 32 | (b12 as u128) << 24 | (b13 as u128) << 16 | (b14 as u128) << 8 | (b15 as u128),
    ;
    assert(((w >> 16u128) & 0xff) as u8 == b13) by (bit_vector)
        requires
            w == (b0 as u128) << 120 | (b1 as u128) << 112 | (b2 as u128) << 104 | (b3 as u128) << 96 | (b4 as u128) << 88 | (b5 as u128) << 80 | (b6 as u128) << 72 | (b7 as u128) << 64 | (b8 as u128) << 56 | (b9 as u128) << 48 | (b10 as u128) << 40 | (b11 as u128) << 32 | (b12 as u128) << 24 | (b13 as u128) << 16 | (b14 as u128) << 8 | (b15 as u128),
    ;
    assert(((w >> 8u128) & 0xff) as u8 == b14) by (bit_vector)
        requires
            w == (b0 as u128) << 120 | (b1 as u128) << 112 | (b2 as u128) << 104 | (b3 as u128) << 96 | (b4 as u128) << 88 | (b5 as u128) << 80 | (b6 as u128) << 72 | (b7 as u128) << 64 | (b8 as u128) << 56 | (b9 as u128) << 48 | (b10 as u128) << 40 | (b11 as u128) << 32 | (b12 as u128) << 24 | (b13 as u128) << 16 | (b14 as u128) << 8 | (b15 as u128),
    ;
    assert(((w >> 0u128) & 0xff) as u8 == b15) by (bit_vector)
        requires
            w == (b0 as u128) << 120 | (b1 as u128) << 112 | (b2 as u128) << 104 | (b3 as u128) << 96 | (b4 as u128) << 88 | (b5 as u128) << 80 | (b6 as u128) << 72 | (b7 as u128) << 64 | (b8 as u128) << 56 | (b9 as u128) << 48 | (b10 as u128) << 40 | (b11 as u128) << 32 | (b12 as u128) << 24 | (b13 as u128) << 16 | (b14 as u128) << 8 | (b15 as u128),
    ;
}

/// The bytes of the identifier made of 32 bytes are those bytes.
pub proof fn lemma_bytes_round_trip(bytes: Seq<u8>, i: int)
    requires
        bytes.len() == 32,
        0 <= i < 16,
    ensures
        byte_of(be_u128(bytes, 0), i) == bytes[i],
        byte_of(be_u128(bytes, 16), i) == bytes[16 + i],
{
    lemma_word_bytes(
        bytes[0],
        bytes[1],
        bytes[2],
        bytes[3],
        bytes[4],
        bytes[5],
        bytes[6],
        bytes[7],
        bytes[8],
        bytes[9],
        bytes[10],
        bytes[11],
        bytes[12],
        bytes[13],
        bytes[14],
        bytes[15],
        be_u128(bytes, 0),
    );
    lemma_word_bytes(
        bytes[16],
        bytes[17],
        bytes[18],
        bytes[19],
        bytes[20],
        bytes[21],
        bytes[22],
        bytes[23],
        bytes[24],
        bytes[25],
        bytes[26],
        bytes[27],
        bytes[28],
        bytes[29],
        bytes[30],
        bytes[31],
        be_u128(bytes, 16),
    );
}

/// Whether the bytes of `a` from `from` up to `to` come before those of `b`
/// in the order of the dictionary.
pub open spec fn bytes_precede(a: Seq<u8>, b: Seq<u8>, from: int, to: int) -> bool
    decreases to - from,
{
    if from >= to {
        false
    } else {
        a[from] < b[from] || (a[from] == b[from] && bytes_precede(a, b, from + 1, to))
    }
}

proof fn lemma_word_order(a0: u8, a1: u8, a2: u8, a3: u8, a4: u8, a5: u8, a6: u8, a7: u8, a8: u8, a9: u8, a10: u8, a11: u8, a12: u8, a13: u8, a14: u8, a15: u8, b0: u8, b1: u8, b2: u8, b3: u8, b4: u8, b5: u8, b6: u8, b7: u8, b8: u8, b9: u8, b10: u8, b11: u8, b12: u8, b13: u8, b14: u8, b15: u8, wa: u128, wb: u128)
    requires
        wa == (a0 as u128) << 120 | (a1 as u128) << 112 | (a2 as u128) << 104 | (a3 as u128) << 96 | (a4 as u128) << 88 | (a5 as u128) << 80 | (a6 as u128) << 72 | (a7 as u128) << 64 | (a8 as u128) << 56 | (a9 as u128) << 48 | (a10 as u128) << 40 | (a11 as u128) << 32 | (a12 as u128) << 24 | (a13 as u128) << 16 | (a14 as u128) << 8 | (a15 as u128),
        wb == (b0 as u128) << 120 | (b1 as u128) << 112 | (b2 as u128) << 104 | (b3 as u128) << 96 | (b4 as u128) << 88 | (b5 as u128) << 80 | (b6 as u128) << 72 | (b7 as u128) << 64 | (b8 as u128) << 56 | (b9 as u128) << 48 | (b10 as u128) << 40 | (b11 as u128) << 32 | (b12 as u128) << 24 | (b13 as u128) << 16 | (b14 as u128) << 8 | (b15 as u128),
    ensures
        wa < wb <==> (a0 < b0 || (a0 == b0 && (a1 < b1 || (a1 == b1 && (a2 < b2 || (a2 == b2 && (a3 < b3 || (a3 == b3 && (a4 < b4 || (a4 == b4 && (a5 < b5 || (a5 == b5 && (a6 < b6 || (a6 == b6 && (a7 < b7 || (a7 == b7 && (a8 < b8 || (a8 == b8 && (a9 < b9 || (a9 == b9 && (a10 < b10 || (a10 == b10 && (a11 < b11 || (a11 == b11 && (a12 < b12 || (a12 == b12 && (a13 < b13 || (a13 == b13 && (a14 < b14 || (a14 == b14 && a15 < b15)))))))))))))))))))))))))))))),
        wa == wb <==> (a0 == b0 && a1 == b1 && a2 == b2 && a3 == b3 && a4 == b4 && a5 == b5 && a6 == b6 && a7 == b7 && a8 == b8 && a9 == b9 && a10 == b10 && a11 == b11 && a12 == b12 && a13 == b13 && a14 == b14 && a15 == b15),
{
    assert(wa < wb <==> (a0 < b0 || (a0 == b0 && (a1 < b1 || (a1 == b1 && (a2 < b2 || (a2 == b2 && (a3 < b3 || (a3 == b3 && (a4 < b4 || (a4 == b4 && (a5 < b5 || (a5 == b5 && (a6 < b6 || (a6 == b6 && (a7 < b7 || (a7 == b7 && (a8 < b8 || (a8 == b8 && (a9 < b9 || (a9 == b9 && (a10 < b10 || (a10 == b10 && (a11 < b11 || (a11 == b11 && (a12 < b12 || (a12 == b12 && (a13 < b13 || (a13 == b13 && (a14 < b14 || (a14 == b14 && a15 < b15))))))))))))))))))))))))))))))) by (bit_vector)
        requires
            wa == (a0 as u128) << 120 | (a1 as u128) << 112 | (a2 as u128) << 104 | (a3 as u128) << 96 | (a4 as u128) << 88 | (a5 as u128) << 80 | (a6 as u128) << 72 | (a7 as u128) << 64 | (a8 as u128) << 56 | (a9 as u128) << 48 | (a10 as u128) << 40 | (a11 as u128) << 32 | (a12 as u128) << 24 | (a13 as u128) << 16 | (a14 as u128) << 8 | (a15 as u128),
            wb == (b0 as u128) << 120 | (b1 as u128) << 112 | (b2 as u128) << 104 | (b3 as u128) << 96 | (b4 as u128) << 88 | (b5 as u128) << 80 | (b6 as u128) << 72 | (b7 as u128) << 64 | (b8 as u128) << 56 | (b9 as u128) << 48 | (b10 as u128) << 40 | (b11 as u128) << 32 | (b12 as u128) << 24 | (b13 as u128) << 16 | (b14 as u128) << 8 | (b15 as u128),
    ;
    assert(wa == wb <==> (a0 == b0 && a1 == b1 && a2 == b2 && a3 == b3 && a4 == b4 && a5 == b5 && a6 == b6 && a7 == b7 && a8 == b8 && a9 == b9 && a10 == b10 && a11 == b11 && a12 == b12 && a13 == b13 && a14 == b14 && a15 == b15)) by (bit_vector)
        requires
            wa == (a0 as u128) << 120 | (a1 as u128) << 112 | (a2 as u128) << 104 | (a3 as u128) << 96 | (a4 as u128) << 88 | (a5 as u128) << 80 | (a6 as u128) << 72 | (a7 as u128) << 64 | (a8 as u128) << 56 | (a9 as u128) << 48 | (a10 as u128) << 40 | (a11 as u128) << 32 | (a12 as u128) << 24 | (a13 as u128) << 16 | (a14 as u128) << 8 | (a15 as u128),
            wb == (b0 as u128) << 120 | (b1 as u128) << 112 | (b2 as u128) << 104 | (b3 as u128) << 96 | (b4 as u128) << 88 | (b5 as u128) << 80 | (b6 as u128) << 72 | (b7 as u128) << 64 | (b8 as u128) << 56 | (b9 as u128) << 48 | (b10 as u128) << 40 | (b11 as u128) << 32 | (b12 as u128) << 24 | (b13 as u128) << 16 | (b14 as u128) << 8 | (b15 as u128),
    ;
}

proof fn lemma_half_order(a: Seq<u8>, b: Seq<u8>, from: int)
    requires
        a.len() == 32,
        b.len() == 32,
        from == 0 || from == 16,
    ensures
        be_u128(a, from) < be_u128(b, from) <==> bytes_precede(a, b, from, from + 16),
        be_u128(a, from) == be_u128(b, from) <==> forall|i: int|
            from <= i < from + 16 ==> a[i] == b[i],
{
    lemma_word_order(
        a[from + 0],
        a[from + 1],
        a[from + 2],
        a[from + 3],
        a[from + 4],
        a[from + 5],
        a[from + 6],
        a[from + 7],
        a[from + 8],
        a[from + 9],
        a[from + 10],
        a[from + 11],
        a[from + 12],
        a[from + 13],
        a[from + 14],
        a[from + 15],
        b[from + 0],
        b[from + 1],
        b[from + 2],
        b[from + 3],
        b[from + 4],
        b[from + 5],
        b[from + 6],
        b[from + 7],
        b[from + 8],
        b[from + 9],
        b[from + 10],
        b[from + 11],
        b[from + 12],
        b[from + 13],
        b[from + 14],
        b[from + 15],
        be_u128(a, from),
        be_u128(b, from),
    );
    reveal_with_fuel(bytes_precede, 17);
}

proof fn lemma_bytes_precede_split(a: Seq<u8>, b: Seq<u8>, from: int, middle: int, to: int)
    requires
        from <= middle <= to,
    ensures
        bytes_precede(a, b, from, to) <==> (bytes_precede(a, b, from, middle) || ((forall|i: int|
            from <= i < middle ==> a[i] == b[i]) && bytes_precede(a, b, middle, to))),
    decreases middle - from,
{
    if from < middle {
        lemma_bytes_precede_split(a, b, from + 1, middle, to);
        if a[from] == b[from] {
            if forall|i: int| from + 1 <= i < middle ==> a[i] == b[i] {
                assert forall|i: int| from <= i < middle implies a[i] == b[i] by {}
            }
        }
    }
}

/// The identifiers made of two lists of 32 bytes are ordered as the two
/// lists are in the order of the dictionary.
pub proof fn lemma_identifiers_are_ordered_like_their_bytes(a: Seq<u8>, b: Seq<u8>)
    requires
        a.len() == 32,
        b.len() == 32,
    ensures
        (Bytes32 { hi: be_u128(a, 0), lo: be_u128(a, 16) }).precedes(
            Bytes32 { hi: be_u128(b, 0), lo: be_u128(b, 16) },
        ) <==> bytes_precede(a, b, 0, 32),
        (Bytes32 { hi: be_u128(a, 0), lo: be_u128(a, 16) }) == (Bytes32 {
            hi: be_u128(b, 0),
            lo: be_u128(b, 16),
        }) <==> a == b,
{
    lemma_half_order(a, b, 0);
    lemma_half_order(a, b, 16);
    lemma_bytes_precede_split(a, b, 0, 16, 32);
    if (forall|i: int| 0 <= i < 16 ==> a[i] == b[i]) && (forall|i: int|
        16 <= i < 32 ==> a[i] == b[i]) {
        assert(a =~= b);
    }
}

/// The order of identifiers is the order of their numeric values.
pub proof fn lemma_precedes_is_numeric_order(a: Bytes32, b: Bytes32)
    ensures
        a.precedes(b) <==> a.value() < b.value(),
        a == b <==> a.value() == b.value(),
{
}

/// Reference to one output slot of a transaction.
#[derive(Clone, Copy, Debug, PartialEq, Eq, Structural, Hash)]
pub struct UtxoId {
    pub tx_id: TxId,
    pub output_index: u16,
}

impl UtxoId {
    pub fn new(tx_id: TxId, output_index: u16) -> (utxo_id: UtxoId)
        ensures
            utxo_id.tx_id == tx_id,
            utxo_id.output_index == output_index,
    {
        UtxoId { tx_id, output_index }
    }
}

/// One input of a transaction: the resource it spends or reads.
#[derive(Clone, Copy, Debug, PartialEq, Eq, Structural)]
pub enum Input {
    /// Spends a coin, confirmed or still to be produced by a pool transaction.
    Coin { utxo_id: UtxoId, owner: Address, asset_id: AssetId },
    /// Spends a relayed message.
    Message { nonce: Nonce, sender: Address, recipient: Address },
    /// Reads a contract.
    Contract { contract_id: ContractId },
}

/// One output slot of a transaction.
#[derive(Clone, Copy, Debug, PartialEq, Eq, Structural)]
pub enum Output {
    Coin,
    Contract,
    Change,
    Variable,
    ContractCreated { contract_id: ContractId },
}

impl Output {
    /// Whether a later transaction may spend this slot as a coin.
    pub open spec fn spec_is_spendable(&self) -> bool {
        *self is Coin || *self is Change || *self is Variable
    }

    #[verifier::when_used_as_spec(spec_is_spendable)]
    pub fn is_spendable(&self) -> (r: bool)
        ensures
            r == self.spec_is_spendable(),
    {
        match self {
            Output::Coin => true,
            Output::Change => true,
            Output::Variable => true,
            Output::Contract => false,
            Output::ContractCreated { .. } => false,
        }
    }
}

/// The kind of a transaction.
#[derive(Clone, Copy, Debug, PartialEq, Eq, Structural)]
pub enum TxKind {
    Script,
    Create,
    Upgrade,
    Upload,
    Blob { blob_id: BlobId },
}

/// A resource that at most one pool transaction may claim.
#[derive(Clone, Copy, Debug, PartialEq, Eq, Structural)]
pub enum Resource {
    /// A coin, claimed by the transaction that spends it.
    Coin(UtxoId),
    /// A relayed message, claimed by the transaction that spends it.
    Message(Nonce),
    /// A contract id, claimed by the transaction that deploys it.
    Contract(ContractId),
    /// A blob id, claimed by the transaction that uploads it.
    Blob(BlobId),
}

/// The attributes of a transaction that the pool observes.
#[derive(Clone, Debug, PartialEq, Eq)]
pub struct PoolTx {
    pub id: TxId,
    pub kind: TxKind,
    /// Upper bound on the gas the transaction may use.
    pub max_gas: u64,
    pub tip: u64,
    pub metered_bytes_size: usize,
    /// The highest gas price at which the transaction's maximal fee stays
    /// within its fee limit.
    pub max_gas_price: u64,
    pub inputs: Vec<Input>,
    pub outputs: Vec<Output>,
}

impl PoolTx {
    /// Whether the transaction claims `resource`.
    pub open spec fn claims(&self, resource: Resource) -> bool {
        match resource {
            Resource::Coin(utxo_id) => exists|i: int|
                0 <= i < self.inputs@.len() && (#[trigger] self.inputs@[i]) is Coin
                    && self.inputs@[i]->Coin_utxo_id == utxo_id,
            Resource::Message(nonce) => exists|i: int|
                0 <= i < self.inputs@.len() && (#[trigger] self.inputs@[i]) is Message
                    && self.inputs@[i]->Message_nonce == nonce,
            Resource::Contract(contract_id) => exists|i: int|
                0 <= i < self.outputs@.len() && #[trigger] self.outputs@[i]
                    == (Output::ContractCreated { contract_id }),
            Resource::Blob(blob_id) => self.kind == (TxKind::Blob { blob_id }),
        }
    }

    /// Whether the transaction spends some output of the transaction `tx_id`.
    pub open spec fn spends_output_of(&self, tx_id: TxId) -> bool {
        exists|i: int|
            0 <= i < self.inputs@.len() && (#[trigger] self.inputs@[i]) is Coin
                && self.inputs@[i]->Coin_utxo_id.tx_id == tx_id
    }

    /// Whether the transaction spends some output of the transaction `tx_id`.
    pub fn has_input_from(&self, tx_id: &TxId) -> (r: bool)
        ensures
            r == self.spends_output_of(*tx_id),
    {
        let mut i: usize = 0;
        while i < self.inputs.len()
            invariant
                0 <= i <= self.inputs@.len(),
                forall|j: int|
                    0 <= j < i ==> !((#[trigger] self.inputs@[j]) is Coin
                        && self.inputs@[j]->Coin_utxo_id.tx_id == *tx_id),
            decreases self.inputs@.len() - i,
        {
            match self.inputs[i] {
                Input::Coin { utxo_id, .. } => {
                    if utxo_id.tx_id == *tx_id {
                        return true;
                    }
                },
                _ => {},
            }
            i += 1;
        }
        false
    }

    /// The resource claimed through input `i`, if that input claims one.
    pub open spec fn input_claim(input: Input) -> Option<Resource> {
        match input {
            Input::Coin { utxo_id, .. } => Some(Resource::Coin(utxo_id)),
            Input::Message { nonce, .. } => Some(Resource::Message(nonce)),
            Input::Contract { .. } => None,
        }
    }

    /// The resources the transaction claims, each at least once.
    pub fn claimed_resources(&self) -> (claims: Vec<Resource>)
        ensures
            forall|r: Resource| claims@.contains(r) <==> self.claims(r),
    {
        let mut claims: Vec<Resource> = Vec::new();
        let mut i: usize = 0;
        while i < self.inputs.len()
            invariant
                0 <= i <= self.inputs@.len(),
                forall|r: Resource| #[trigger]
                    claims@.contains(r) <==> exists|j: int|
                        0 <= j < i && Self::input_claim(#[trigger] self.inputs@[j]) == Some(r),
            decreases self.inputs@.len() - i,
        {
            let ghost before = claims@;
            match self.inputs[i] {
                Input::Coin { utxo_id, .. } => {
                    claims.push(Resource::Coin(utxo_id));
                },
                Input::Message { nonce, .. } => {
                    claims.push(Resource::Message(nonce));
                },
                Input::Contract { .. } => {},
            }
            proof {
                let input = self.inputs@[i as int];
                assert forall|r: Resource| #[trigger]
                    claims@.contains(r) <==> exists|j: int|
                        0 <= j < i + 1 && Self::input_claim(#[trigger] self.inputs@[j]) == Some(
                            r,
                        ) by {
                    if claims@.contains(r) {
                        let k = choose|k: int| 0 <= k < claims@.len() && claims@[k] == r;
                        if k < before.len() {
                            assert(before[k] == r);
                            assert(before.contains(r));
                        } else {
                            assert(Self::input_claim(self.inputs@[i as int]) == Some(r));
                        }
                    }
                    if exists|j: int|
                        0 <= j < i + 1 && Self::input_claim(#[trigger] self.inputs@[j]) == Some(
                            r,
                        ) {
                        let j = choose|j: int|
                            0 <= j < i + 1 && Self::input_claim(#[trigger] self.inputs@[j])
                                == Some(r);
                        if j < i {
                            assert(before.contains(r));
                            let k = choose|k: int| 0 <= k < before.len() && before[k] == r;
                            assert(claims@[k] == r);
                        } else {
                            assert(claims@[claims@.len() - 1] == r);
                        }
                    }
                }
            }
            i += 1;
        }
        let ghost after_inputs = claims@;
        let mut j: usize = 0;
        while j < self.outputs.len()
            invariant
                0 <= j <= self.outputs@.len(),
                forall|r: Resource| #[trigger]
                    claims@.contains(r) <==> (after_inputs.contains(r) || exists|k: int|
                        0 <= k < j && r is Contract && #[trigger] self.outputs@[k]
                            == (Output::ContractCreated { contract_id: r->Contract_0 })),
            decreases self.outputs@.len() - j,
        {
            let ghost before = claims@;
            match self.outputs[j] {
                Output::ContractCreated { contract_id } => {
                    claims.push(Resource::Contract(contract_id));
                },
                _ => {},
            }
            proof {
                assert forall|r: Resource| #[trigger]
                    claims@.contains(r) <==> (after_inputs.contains(r) || exists|k: int|
                        0 <= k < j + 1 && r is Contract && #[trigger] self.outputs@[k]
                            == (Output::ContractCreated { contract_id: r->Contract_0 })) by {
                    if claims@.contains(r) {
                        let k = choose|k: int| 0 <= k < claims@.len() && claims@[k] == r;
                        if k < before.len() {
                            assert(before[k] == r);
                            assert(before.contains(r));
                        } else {
                            assert(self.outputs@[j as int] == (Output::ContractCreated {
                                contract_id: r->Contract_0,
                            }));
                        }
                    }
                    if after_inputs.contains(r) || exists|k: int|
                        0 <= k < j + 1 && r is Contract && #[trigger] self.outputs@[k]
                            == (Output::ContractCreated { contract_id: r->Contract_0 }) {
                        if before.contains(r) {
                            let k = choose|k: int| 0 <= k < before.len() && before[k] == r;
                            assert(claims@[k] == r);
                        } else {
                            let k = choose|k: int|
                                0 <= k < j + 1 && r is Contract && #[trigger] self.outputs@[k]
                                    == (Output::ContractCreated { contract_id: r->Contract_0 });
                            assert(k == j);
                            assert(claims@[claims@.len() - 1] == r);
                        }
                    }
                }
            }
            j += 1;
        }
        let ghost after_outputs = claims@;
        match self.kind {
            TxKind::Blob { blob_id } => {
                claims.push(Resource::Blob(blob_id));
            },
            _ => {},
        }
        proof {
            assert forall|r: Resource| claims@.contains(r) <==> self.claims(r) by {
                if claims@.contains(r) {
                    let k = choose|k: int| 0 <= k < claims@.len() && claims@[k] == r;
                    if k < after_outputs.len() {
                        assert(after_outputs[k] == r);
                        assert(after_outputs.contains(r));
                        if after_inputs.contains(r) {
                            let m = choose|m: int|
                                0 <= m < self.inputs@.len() && Self::input_claim(
                                    #[trigger] self.inputs@[m],
                                ) == Some(r);
                            assert(self.claims(r));
                        } else {
                            assert(self.claims(r));
                        }
                    } else {
                        assert(self.claims(r));
                    }
                }
                if self.claims(r) {
                    match r {
                        Resource::Coin(utxo_id) => {
                            let m = choose|m: int|
                                0 <= m < self.inputs@.len() && (#[trigger] self.inputs@[m]) is Coin
                                    && self.inputs@[m]->Coin_utxo_id == utxo_id;
                            assert(Self::input_claim(self.inputs@[m]) == Some(r));
                            assert(after_inputs.contains(r));
                            assert(after_outputs.contains(r));
                        },
                        Resource::Message(nonce) => {
                            let m = choose|m: int|
                                0 <= m < self.inputs@.len() && (
                                #[trigger] self.inputs@[m]) is Message
                                    && self.inputs@[m]->Message_nonce == nonce;
                            assert(Self::input_claim(self.inputs@[m]) == Some(r));
                            assert(after_inputs.contains(r));
                            assert(after_outputs.contains(r));
                        },
                        Resource::Contract(contract_id) => {
                            assert(after_outputs.contains(r));
                        },
                        Resource::Blob(blob_id) => {
                            assert(claims@[claims@.len() - 1] == r);
                        },
                    }
                    if after_outputs.contains(r) {
                        let k = choose|k: int|
                            0 <= k < after_outputs.len() && after_outputs[k] == r;
                        assert(claims@[k] == r);
                    }
                }
            }
        }
        claims
    }
}

} // verus!
