//! The immutable block: a sorted run of key-value entries plus an offset
//! table, with its encode/decode pair.

use vstd::prelude::*;
use vstd::slice::slice_index_get;
use vstd::slice::slice_subrange;
use vstd::slice::slice_to_vec;
use vstd::bytes::u16_from_le_bytes;
use vstd::bytes::u16_to_le_bytes;
use crate::layout::MAX_DATA_BYTES;
use crate::layout::MAX_ENTRIES;
use crate::layout::block_wf;
use crate::layout::block_entries;
use crate::layout::encode_bytes;
use crate::layout::offsets_bytes;
use crate::layout::decoded_count;
use crate::layout::decoded_data_end;
use crate::layout::decoded_offset;
use crate::layout::decoded_entries;
use crate::layout::valid_encoding;
use crate::layout::entry_in_bounds;
use crate::layout::entry_end;
use crate::layout::key_len_at;
use crate::layout::val_len_at;
use crate::layout::key_at;
use crate::layout::val_at;
use crate::layout::lemma_entry_agree;

verus! {

/// The ways this layer can reject input.
#[derive(Clone, Copy, Debug, PartialEq, Eq, Structural)]
pub enum BlockError {
    /// An entry handed to the builder has an empty key, or a key or value
    /// longer than its single-byte length prefix allows.
    InvalidEntry,
    /// Bytes handed to `decode` are not the encoded form of any block.
    CorruptBlock,
}

/// The smallest unit of storage and caching: entry bytes plus one start
/// offset per entry.
pub struct Block {
    /// All serialized entries, back to back.
    pub data: Vec<u8>,
    /// Byte position in `data` where each entry starts.
    pub offsets: Vec<u16>,
}

/// The opaque byte buffer type that encoded blocks are handed out in.
#[verifier::external_type_specification]
#[verifier::external_body]
pub struct ExBytes(bytes::Bytes);

/// The bytes a `bytes::Bytes` buffer holds.
pub uninterp spec fn bytes_contents(b: bytes::Bytes) -> Seq<u8>;

/// Relies on `bytes::Bytes::from(Vec<u8>)`: the returned buffer takes over
/// the vector and holds exactly its bytes.
#[verifier::external_body]
fn bytes_from_vec(v: Vec<u8>) -> (r: bytes::Bytes)
    ensures
        bytes_contents(r) == v@,
{
    bytes::Bytes::from(v)
}

/// Append every byte of `src` to `dst`.
pub(crate) fn push_bytes(dst: &mut Vec<u8>, src: &[u8])
    ensures
        final(dst)@ == old(dst)@ + src@,
{
    proof {
        assert(old(dst)@ + src@.subrange(0, 0) =~= old(dst)@);
    }
    let mut j: usize = 0;
    while j < src.len()
        invariant
            j <= src@.len(),
            dst@ == old(dst)@ + src@.subrange(0, j as int),
        decreases src@.len() - j,
    {
        dst.push(*slice_index_get(src, j));
        j = j + 1;
        proof {
            assert(src@.subrange(0, j as int)
                =~= src@.subrange(0, j - 1).push(src@[j - 1]));
            assert(dst@ =~= old(dst)@ + src@.subrange(0, j as int));
        }
    }
    proof {
        assert(src@.subrange(0, src@.len() as int) =~= src@);
    }
}

impl Block {
    /// The block's raw parts are a well-formed block layout.
    pub open spec fn wf(&self) -> bool {
        block_wf(self.data@, self.offsets@)
    }

    /// The block's logical entry sequence.
    pub open spec fn entries(&self) -> Seq<(Seq<u8>, Seq<u8>)> {
        block_entries(self.data@, self.offsets@)
    }

    /// Number of entries in the block.
    pub fn num_entries(&self) -> (n: usize)
        ensures
            n == self.offsets@.len(),
    {
        self.offsets.len()
    }

    /// Key of entry `i`.
    pub fn entry_key(&self, i: usize) -> (k: &[u8])
        requires
            self.wf(),
            i < self.offsets@.len(),
        ensures
            k@ == self.entries()[i as int].0,
    {
        proof {
            assert(entry_in_bounds(self.data@, self.offsets@[i as int] as int,
                self.data@.len() as int));
        }
        let off = self.offsets[i] as usize;
        let key_len = self.data[off] as usize;
        slice_subrange(self.data.as_slice(), off + 1, off + 1 + key_len)
    }

    /// Value of entry `i`.
    pub fn entry_value(&self, i: usize) -> (v: &[u8])
        requires
            self.wf(),
            i < self.offsets@.len(),
        ensures
            v@ == self.entries()[i as int].1,
    {
        proof {
            assert(entry_in_bounds(self.data@, self.offsets@[i as int] as int,
                self.data@.len() as int));
        }
        let off = self.offsets[i] as usize;
        let key_len = self.data[off] as usize;
        let val_len = self.data[off + 1 + key_len] as usize;
        slice_subrange(self.data.as_slice(), off + 2 + key_len, off + 2 + key_len + val_len)
    }

    /// Encode the block: the data region, then each offset as a
    /// little-endian `u16`, then the entry count as a little-endian `u16`.
    pub fn encode(&self) -> (r: bytes::Bytes)
        requires
            self.wf(),
        ensures
            bytes_contents(r) == encode_bytes(self.data@, self.offsets@),
    {
        let mut out: Vec<u8> = Vec::new();
        push_bytes(&mut out, self.data.as_slice());
        proof {
            assert(self.offsets@.take(0) =~= Seq::<u16>::empty());
            assert(out@ =~= self.data@ + offsets_bytes(self.offsets@.take(0)));
        }
        let n = self.offsets.len();
        let mut i: usize = 0;
        while i < n
            invariant
                i <= n,
                n == self.offsets@.len(),
                n <= MAX_ENTRIES,
                out@ == self.data@ + offsets_bytes(self.offsets@.take(i as int)),
            decreases n - i,
        {
            let two = u16_to_le_bytes(self.offsets[i]);
            push_bytes(&mut out, two.as_slice());
            i = i + 1;
            proof {
                assert(self.offsets@.take(i as int).drop_last()
                    =~= self.offsets@.take(i - 1));
                assert(out@ =~= self.data@ + offsets_bytes(self.offsets@.take(i as int)));
            }
        }
        proof {
            assert(self.offsets@.take(n as int) =~= self.offsets@);
        }
        let count_bytes = u16_to_le_bytes(n as u16);
        push_bytes(&mut out, count_bytes.as_slice());
        proof {
            assert(out@ =~= encode_bytes(self.data@, self.offsets@));
        }
        bytes_from_vec(out)
    }

    /// Decode an encoded block. Succeeds exactly on byte strings that are a
    /// valid encoding, and then reproduces the encoded data region, offsets,
    /// and entry sequence; anything else is reported as corrupt.
    pub fn decode(data: &[u8]) -> (r: Result<Block, BlockError>)
        ensures
            r is Ok <==> valid_encoding(data@),
            r matches Ok(b) ==> {
                &&& b.wf()
                &&& b.data@ == data@.subrange(0, decoded_data_end(data@))
                &&& b.offsets@.len() == decoded_count(data@)
                &&& (forall|i: int| 0 <= i < b.offsets@.len()
                        ==> #[trigger] b.offsets@[i] as int == decoded_offset(data@, i))
                &&& b.entries() == decoded_entries(data@)
            },
            r is Err ==> r == Err::<Block, BlockError>(BlockError::CorruptBlock),
    {
        let n = data.len();
        if n < 2 {
            return Err(BlockError::CorruptBlock);
        }
        let count_slice = slice_subrange(data, n - 2, n);
        let count_u16 = u16_from_le_bytes(count_slice);
        let count = count_u16 as usize;
        proof {
            assert(count == decoded_count(data@));
        }
        if n < 2 + 2 * count {
            return Err(BlockError::CorruptBlock);
        }
        let data_end = n - 2 - 2 * count;
        proof {
            assert(data_end == decoded_data_end(data@));
        }
        if data_end > MAX_DATA_BYTES {
            return Err(BlockError::CorruptBlock);
        }
        let mut offsets: Vec<u16> = Vec::new();
        let mut expected_off: usize = 0;
        let mut i: usize = 0;
        while i < count
            invariant
                n == data@.len(),
                n >= 2,
                count == decoded_count(data@),
                count == count_u16 as int,
                2 + 2 * count <= n,
                data_end == n - 2 - 2 * count,
                data_end == decoded_data_end(data@),
                data_end <= MAX_DATA_BYTES,
                i <= count,
                offsets@.len() == i,
                forall|j: int| 0 <= j < i
                    ==> #[trigger] offsets@[j] as int == decoded_offset(data@, j),
                forall|j: int| 0 <= j < i
                    ==> entry_in_bounds(data@, #[trigger] decoded_offset(data@, j),
                            data_end as int),
                forall|j: int| 0 <= j < i as int - 1
                    ==> #[trigger] decoded_offset(data@, j + 1)
                        == entry_end(data@, decoded_offset(data@, j)),
                i > 0 ==> decoded_offset(data@, 0) == 0,
                expected_off as int == (if i == 0 { 0int } else {
                    entry_end(data@, decoded_offset(data@, i as int - 1))
                }),
                expected_off <= data_end,
            decreases count - i,
        {
            let off_slice = slice_subrange(data, data_end + 2 * i, data_end + 2 * i + 2);
            let off_u16 = u16_from_le_bytes(off_slice);
            let off = off_u16 as usize;
            proof {
                assert(off == decoded_offset(data@, i as int));
            }
            if off != expected_off {
                proof {
                    if valid_encoding(data@) {
                        if i == 0 {
                            assert(decoded_offset(data@, 0) == 0);
                        } else {
                            assert(decoded_offset(data@, (i - 1) + 1)
                                == entry_end(data@, decoded_offset(data@, i - 1)));
                        }
                    }
                }
                return Err(BlockError::CorruptBlock);
            }
            let key_len = *slice_index_get(data, off) as usize;
            if off + 1 + key_len >= data_end {
                proof {
                    assert(key_len == key_len_at(data@, off as int));
                    assert(!entry_in_bounds(data@, decoded_offset(data@, i as int),
                        data_end as int));
                }
                return Err(BlockError::CorruptBlock);
            }
            let val_len = *slice_index_get(data, off + 1 + key_len) as usize;
            if off + 2 + key_len + val_len > data_end {
                proof {
                    assert(val_len == val_len_at(data@, off as int));
                    assert(!entry_in_bounds(data@, decoded_offset(data@, i as int),
                        data_end as int));
                }
                return Err(BlockError::CorruptBlock);
            }
            offsets.push(off_u16);
            expected_off = off + 2 + key_len + val_len;
            i = i + 1;
            proof {
                assert(expected_off as int
                    == entry_end(data@, decoded_offset(data@, i as int - 1)));
            }
        }
        if expected_off != data_end {
            proof {
                if valid_encoding(data@) {
                    if count > 0 {
                        assert(entry_end(data@, decoded_offset(data@, count as int - 1))
                            == decoded_data_end(data@));
                    }
                }
            }
            return Err(BlockError::CorruptBlock);
        }
        let d = slice_to_vec(slice_subrange(data, 0, data_end));
        proof {
            assert(valid_encoding(data@));
            assert forall|j: int| 0 <= j < count implies {
                &&& entry_in_bounds(d@, #[trigger] decoded_offset(data@, j), data_end as int)
                &&& entry_end(d@, decoded_offset(data@, j))
                    == entry_end(data@, decoded_offset(data@, j))
                &&& key_at(d@, decoded_offset(data@, j))
                    == key_at(data@, decoded_offset(data@, j))
                &&& val_at(d@, decoded_offset(data@, j))
                    == val_at(data@, decoded_offset(data@, j))
            } by {
                lemma_entry_agree(data@, d@, decoded_offset(data@, j), data_end as int);
            }
            assert forall|j: int| 0 <= j < count as int - 1
                implies #[trigger] offsets@[j + 1] as int
                    == entry_end(d@, offsets@[j] as int) by {
                assert(decoded_offset(data@, j + 1)
                    == entry_end(data@, decoded_offset(data@, j)));
            }
            assert(block_wf(d@, offsets@));
            assert(block_entries(d@, offsets@) =~= decoded_entries(data@));
        }
        Ok(Block { data: d, offsets })
    }
}

} // verus!
