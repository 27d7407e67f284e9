//! The binary layout of one block: the data section, then one big-endian
//! `u16` offset per entry, then the entry count as a big-endian `u16`.
use vstd::prelude::*;

verus! {

/// `bytes::Bytes`, the immutable buffer that an encoded block is handed out in.
#[verifier::external_type_specification]
#[verifier::external_body]
pub struct ExBytes(bytes::Bytes);

/// The bytes that a `bytes::Bytes` buffer holds.
pub uninterp spec fn bytes_content(b: bytes::Bytes) -> Seq<u8>;

/// Relies on `<bytes::Bytes as From<Vec<u8>>>::from`: the buffer takes over
/// the vector and holds exactly its bytes.
#[verifier::external_body]
fn freeze(v: Vec<u8>) -> (r: bytes::Bytes)
    ensures
        bytes_content(r) == v@,
{
    bytes::Bytes::from(v)
}

/// High byte of a big-endian `u16`.
pub open spec fn hi_byte(x: u16) -> u8 {
    (x as int / 256) as u8
}

/// Low byte of a big-endian `u16`.
pub open spec fn lo_byte(x: u16) -> u8 {
    (x as int % 256) as u8
}

/// The big-endian `u16` stored at positions `i` and `i + 1` of `b`.
pub open spec fn be16_at(b: Seq<u8>, i: int) -> u16 {
    (b[i] as int * 256 + b[i + 1] as int) as u16
}

/// The offsets, each written as two big-endian bytes, in order.
pub open spec fn offsets_bytes(offsets: Seq<u16>) -> Seq<u8> {
    Seq::new(
        2 * offsets.len(),
        |j: int|
            if j % 2 == 0 {
                hi_byte(offsets[j / 2])
            } else {
                lo_byte(offsets[j / 2])
            },
    )
}

/// The encoding of a block: data, offsets, entry count.
pub open spec fn encoding(data: Seq<u8>, offsets: Seq<u16>) -> Seq<u8> {
    data + offsets_bytes(offsets) + seq![hi_byte(offsets.len() as u16), lo_byte(offsets.len() as u16)]
}

/// The entry count that the footer of `b` declares.
pub open spec fn declared_count(b: Seq<u8>) -> int {
    be16_at(b, b.len() - 2) as int
}

/// `b` has a footer, and room before it for the offsets that the footer declares.
pub open spec fn is_well_framed(b: Seq<u8>) -> bool {
    b.len() >= 2 && b.len() >= 2 + 2 * declared_count(b)
}

/// Length of the data section of a well-framed buffer.
pub open spec fn data_len_of(b: Seq<u8>) -> int {
    b.len() - 2 - 2 * declared_count(b)
}

/// The data section of a well-framed buffer.
pub open spec fn decoded_data(b: Seq<u8>) -> Seq<u8> {
    b.subrange(0, data_len_of(b))
}

/// The offsets of a well-framed buffer.
pub open spec fn decoded_offsets(b: Seq<u8>) -> Seq<u16> {
    Seq::new(declared_count(b) as nat, |i: int| be16_at(b, data_len_of(b) + 2 * i))
}

/// Why a buffer is not a block.
#[derive(Debug, Clone, Copy, PartialEq, Eq, Structural)]
pub enum BlockError {
    /// The buffer is shorter than its footer, or than the offsets its footer declares.
    Malformed,
}

/// A sorted run of entries: their encoded bytes, and the start of each entry
/// within those bytes.
pub struct Block {
    pub data: Vec<u8>,
    pub offsets: Vec<u16>,
}

impl Block {
    /// Encodes the block as data, offsets and entry count.
    pub fn encode(&self) -> (r: bytes::Bytes)
        requires
            self.offsets.len() <= 65535,
            self.data.len() + 2 * self.offsets.len() + 2 <= usize::MAX,
        ensures
            bytes_content(r) == encoding(self.data@, self.offsets@),
    {
        let total: usize = self.data.len() + self.offsets.len() * 2 + 2;
        let mut buf: Vec<u8> = Vec::with_capacity(total);
        let mut i: usize = 0;
        while i < self.data.len()
            invariant
                i <= self.data.len(),
                buf@ == self.data@.subrange(0, i as int),
            decreases self.data.len() - i,
        {
            buf.push(self.data[i]);
            i = i + 1;
        }
        assert(buf@ == self.data@);
        let mut j: usize = 0;
        while j < self.offsets.len()
            invariant
                j <= self.offsets.len(),
                self.offsets.len() <= 65535,
                buf@ == self.data@ + offsets_bytes(self.offsets@.subrange(0, j as int)),
            decreases self.offsets.len() - j,
        {
            let off: u16 = self.offsets[j];
            push_be16(&mut buf, off);
            proof {
                let prev = self.offsets@.subrange(0, j as int);
                let next = self.offsets@.subrange(0, j + 1);
                assert(offsets_bytes(next) =~= offsets_bytes(prev) + seq![hi_byte(off), lo_byte(off)]);
            }
            j = j + 1;
        }
        assert(self.offsets@.subrange(0, j as int) =~= self.offsets@);
        push_be16(&mut buf, self.offsets.len() as u16);
        assert(buf@ =~= encoding(self.data@, self.offsets@));
        freeze(buf)
    }

    /// Decodes a block from its encoding, copying out of `bytes`.
    pub fn decode(bytes: &[u8]) -> (r: Result<Block, BlockError>)
        ensures
            match r {
                Ok(b) => is_well_framed(bytes@) && b.data@ == decoded_data(bytes@)
                    && b.offsets@ == decoded_offsets(bytes@),
                Err(e) => !is_well_framed(bytes@) && e == BlockError::Malformed,
            },
    {
        let len: usize = bytes.len();
        if len < 2 {
            return Err(BlockError::Malformed);
        }
        let count: u16 = read_be16(bytes, len - 2);
        let offsets_len: usize = (count as usize) * 2;
        if len - 2 < offsets_len {
            return Err(BlockError::Malformed);
        }
        let data_len: usize = len - 2 - offsets_len;
        let mut data: Vec<u8> = Vec::with_capacity(data_len);
        let mut i: usize = 0;
        while i < data_len
            invariant
                data_len <= bytes@.len(),
                i <= data_len,
                data@ == bytes@.subrange(0, i as int),
            decreases data_len - i,
        {
            data.push(bytes[i]);
            i = i + 1;
        }
        let mut offsets: Vec<u16> = Vec::with_capacity(count as usize);
        let mut k: usize = 0;
        while k < count as usize
            invariant
                data_len + 2 * (count as int) + 2 == len,
                len == bytes@.len(),
                data_len == data_len_of(bytes@),
                count as int == declared_count(bytes@),
                k <= count,
                offsets@ == decoded_offsets(bytes@).subrange(0, k as int),
            decreases count - k,
        {
            let off: u16 = read_be16(bytes, data_len + 2 * k);
            offsets.push(off);
            assert(offsets@ =~= decoded_offsets(bytes@).subrange(0, k + 1));
            k = k + 1;
        }
        assert(offsets@ =~= decoded_offsets(bytes@));
        Ok(Block { data, offsets })
    }
}

/// Reads the big-endian `u16` at positions `i` and `i + 1`.
fn read_be16(bytes: &[u8], i: usize) -> (r: u16)
    requires
        i + 1 < bytes@.len(),
    ensures
        r == be16_at(bytes@, i as int),
{
    (bytes[i] as u16) * 256 + (bytes[i + 1] as u16)
}

/// A block with at most 65535 entries comes back unchanged from its
/// encoding: the buffer is well framed, and decoding it gives the same data
/// and the same offsets.
pub proof fn lemma_round_trip(data: Seq<u8>, offsets: Seq<u16>)
    requires
        offsets.len() <= 65535,
    ensures
        is_well_framed(encoding(data, offsets)),
        decoded_data(encoding(data, offsets)) == data,
        decoded_offsets(encoding(data, offsets)) == offsets,
{
    let b = encoding(data, offsets);
    let n = offsets.len();
    let ob = offsets_bytes(offsets);
    assert(b.len() == data.len() + 2 * n + 2);
    lemma_be16_split(n as u16);
    assert(b[b.len() - 2] == hi_byte(n as u16));
    assert(b[b.len() - 1] == lo_byte(n as u16));
    assert(declared_count(b) == n);
    assert(decoded_data(b) =~= data);
    assert forall|i: int| 0 <= i < n implies #[trigger] decoded_offsets(b)[i] == offsets[i] by {
        let x = offsets[i];
        lemma_be16_split(x);
        assert(b[data.len() + 2 * i] == ob[2 * i]);
        assert(b[data.len() + 2 * i + 1] == ob[2 * i + 1]);
        assert((2 * i) / 2 == i);
        assert((2 * i + 1) / 2 == i);
        assert((2 * i) % 2 == 0);
        assert((2 * i + 1) % 2 == 1);
    }
    assert(decoded_offsets(b) =~= offsets);
}

proof fn lemma_be16_split(x: u16)
    ensures
        hi_byte(x) as int * 256 + lo_byte(x) as int == x as int,
{
}

/// Appends `x` as two big-endian bytes.
fn push_be16(buf: &mut Vec<u8>, x: u16)
    ensures
        final(buf)@ == old(buf)@ + seq![hi_byte(x), lo_byte(x)],
{
    buf.push((x / 256) as u8);
    buf.push((x % 256) as u8);
    assert(final(buf)@ =~= old(buf)@ + seq![hi_byte(x), lo_byte(x)]);
}

} // verus!
