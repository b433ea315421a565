//! Builds a block: packs strictly increasing keys and their values into the
//! block layout while enforcing a hard byte budget.

use vstd::prelude::*;
use vstd::slice::slice_to_vec;
use crate::layout::MAX_DATA_BYTES;
use crate::layout::MAX_ENTRIES;
use crate::layout::MAX_LEN;
use crate::layout::block_wf;
use crate::layout::block_entries;
use crate::layout::entry_bytes;
use crate::layout::valid_entry;
use crate::layout::lemma_wf_push_entry;
use crate::block::Block;
use crate::block::BlockError;
use crate::block::push_bytes;

verus! {

/// A transient accumulator that packs entries into a block under a byte
/// budget. Create it with `new`, feed it with `add`, consume it with `build`.
pub struct BlockBuilder {
    /// Byte position in `data` where each entry starts.
    pub offsets: Vec<u16>,
    /// All serialized entries added so far, back to back.
    pub data: Vec<u8>,
    /// Target upper bound on the encoded size, in bytes.
    pub block_size: usize,
    /// The key most recently added, kept for callers building a sparse
    /// outer index.
    pub first_key: Vec<u8>,
}

impl BlockBuilder {
    /// The accumulated raw parts always form a well-formed block layout.
    pub open spec fn wf(&self) -> bool {
        block_wf(self.data@, self.offsets@)
    }

    /// The entries accumulated so far.
    pub open spec fn entries(&self) -> Seq<(Seq<u8>, Seq<u8>)> {
        block_entries(self.data@, self.offsets@)
    }

    /// The encoded size the block would have after appending an entry with
    /// the given key and value lengths: the grown data region, the grown
    /// offset table, and the trailing count.
    pub open spec fn size_with(&self, klen: int, vlen: int) -> int {
        self.data@.len() + 2 + klen + vlen + 2 * (self.offsets@.len() + 1) + 2
    }

    /// An entry with the given lengths fits: it keeps the encoded size
    /// within the budget and the block within the format's `u16` caps.
    pub open spec fn fits(&self, klen: int, vlen: int) -> bool {
        &&& self.size_with(klen, vlen) <= self.block_size
        &&& self.data@.len() + 2 + klen + vlen <= MAX_DATA_BYTES
        &&& self.offsets@.len() + 1 <= MAX_ENTRIES
    }

    /// `add` accepts a valid entry when the builder is still empty (a first
    /// entry is never refused) or when the entry fits.
    pub open spec fn accepts(&self, key: Seq<u8>, value: Seq<u8>) -> bool {
        &&& valid_entry(key, value)
        &&& (self.offsets@.len() == 0 || self.fits(key.len() as int, value.len() as int))
    }

    /// Creates an empty builder targeting a maximum encoded size of
    /// `block_size` bytes.
    pub fn new(block_size: usize) -> (b: BlockBuilder)
        ensures
            b.wf(),
            b.offsets@.len() == 0,
            b.data@.len() == 0,
            b.block_size == block_size,
            b.first_key@.len() == 0,
    {
        BlockBuilder {
            offsets: Vec::new(),
            data: Vec::new(),
            block_size,
            first_key: Vec::new(),
        }
    }

    /// True iff no entry has been added yet.
    pub fn is_empty(&self) -> (r: bool)
        ensures
            r == (self.offsets@.len() == 0),
    {
        self.offsets.len() == 0
    }

    /// Appends one entry if it fits.
    ///
    /// An empty key, or a key or value longer than 255 bytes, is rejected as
    /// `InvalidEntry`. A valid entry is refused with `Ok(false)` only when
    /// the builder already holds an entry and the addition would push the
    /// encoded size over the budget or past the format's caps; the very
    /// first entry is always accepted. A refused or invalid entry leaves the
    /// builder unchanged.
    pub fn add(&mut self, key: &[u8], value: &[u8]) -> (r: Result<bool, BlockError>)
        requires
            old(self).wf(),
        ensures
            final(self).wf(),
            final(self).block_size == old(self).block_size,
            (r == Err::<bool, BlockError>(BlockError::InvalidEntry))
                <==> !valid_entry(key@, value@),
            (r == Ok::<bool, BlockError>(true)) <==> old(self).accepts(key@, value@),
            old(self).accepts(key@, value@) ==> {
                &&& final(self).data@ == old(self).data@ + entry_bytes(key@, value@)
                &&& final(self).offsets@
                    == old(self).offsets@.push(old(self).data@.len() as u16)
                &&& final(self).entries() == old(self).entries().push((key@, value@))
                &&& final(self).first_key@ == key@
            },
            !old(self).accepts(key@, value@) ==> *final(self) == *old(self),
    {
        if key.len() == 0 || key.len() > MAX_LEN || value.len() > MAX_LEN {
            return Err(BlockError::InvalidEntry);
        }
        let n = self.offsets.len();
        let dl = self.data.len();
        if n > 0 {
            let within_budget = dl + 2 + key.len() + value.len() + 2 * (n + 1) + 2
                <= self.block_size;
            let within_caps = dl + 2 + key.len() + value.len() <= MAX_DATA_BYTES
                && n + 1 <= MAX_ENTRIES;
            if !(within_budget && within_caps) {
                return Ok(false);
            }
        }
        proof {
            // the new entry's start offset fits a u16: an empty builder has
            // no data, and a non-empty one just checked the data-size cap
            assert(dl <= 0xfffe);
        }
        self.offsets.push(dl as u16);
        self.data.push(key.len() as u8);
        push_bytes(&mut self.data, key);
        self.data.push(value.len() as u8);
        push_bytes(&mut self.data, value);
        self.first_key = slice_to_vec(key);
        proof {
            lemma_wf_push_entry(old(self).data@, old(self).offsets@, key@, value@);
            assert(self.data@ =~= old(self).data@ + entry_bytes(key@, value@));
        }
        Ok(true)
    }

    /// Finalizes the builder into an immutable block. An empty builder must
    /// never be finalized: callers check `is_empty` first.
    pub fn build(self) -> (b: Block)
        requires
            self.wf(),
            self.offsets@.len() > 0,
        ensures
            b.wf(),
            b.data@ == self.data@,
            b.offsets@ == self.offsets@,
    {
        Block { data: self.data, offsets: self.offsets }
    }
}

} // verus!
