//! Read-only cursor over a decoded block: ordered traversal and key-based
//! positioning by binary search over the offset table.

use vstd::prelude::*;
use vstd::pervasive::unreached;
use crate::block::Block;
use crate::keycmp::keys_sorted;
use crate::keycmp::lex_less;
use crate::keycmp::lemma_lex_less_trans;
use crate::keycmp::bytes_lt;

verus! {

/// Where the cursor stands: on entry `i`, or past the last entry.
#[derive(Clone, Copy, Debug, PartialEq, Eq, Structural)]
pub enum IterState {
    /// The cursor references entry `i`.
    Positioned(usize),
    /// The cursor is past the last entry; only re-seeking recovers it.
    Exhausted,
}

/// A cursor over a block. It never mutates the block; transitions are
/// strictly forward.
pub struct BlockIterator {
    /// The block being traversed.
    pub block: Block,
    /// The current cursor state.
    pub state: IterState,
}

impl BlockIterator {
    /// The underlying block is well-formed and a positioned cursor
    /// references a real entry.
    pub open spec fn wf(&self) -> bool {
        &&& self.block.wf()
        &&& (self.state matches IterState::Positioned(i)
                ==> i < self.block.offsets@.len())
    }

    /// The entry sequence being traversed.
    pub open spec fn entries(&self) -> Seq<(Seq<u8>, Seq<u8>)> {
        self.block.entries()
    }

    /// Creates an iterator positioned on the first entry, or exhausted if
    /// the block has none.
    pub fn create_and_seek_to_first(block: Block) -> (it: BlockIterator)
        requires
            block.wf(),
        ensures
            it.wf(),
            it.block == block,
            it.state == (if block.offsets@.len() > 0 {
                IterState::Positioned(0usize)
            } else {
                IterState::Exhausted
            }),
    {
        if block.offsets.len() > 0 {
            BlockIterator { block, state: IterState::Positioned(0) }
        } else {
            BlockIterator { block, state: IterState::Exhausted }
        }
    }

    /// Creates an iterator positioned on the first entry whose key is at
    /// least `key` in byte-lexicographic order, or exhausted if every key
    /// is below `key`. The block's keys must be strictly increasing, as the
    /// builder's contract provides.
    pub fn create_and_seek_to_key(block: Block, key: &[u8]) -> (it: BlockIterator)
        requires
            block.wf(),
            keys_sorted(block.entries()),
        ensures
            it.wf(),
            it.block == block,
            match it.state {
                IterState::Positioned(i) => {
                    &&& i < block.entries().len()
                    &&& !lex_less(block.entries()[i as int].0, key@)
                    &&& forall|j: int| 0 <= j < i
                            ==> lex_less(#[trigger] block.entries()[j].0, key@)
                },
                IterState::Exhausted => forall|j: int| 0 <= j < block.entries().len()
                    ==> lex_less(#[trigger] block.entries()[j].0, key@),
            },
    {
        let n = block.offsets.len();
        let mut lo: usize = 0;
        let mut hi: usize = n;
        while lo < hi
            invariant
                lo <= hi <= n,
                n == block.offsets@.len(),
                block.wf(),
                keys_sorted(block.entries()),
                forall|j: int| 0 <= j < lo
                    ==> lex_less(#[trigger] block.entries()[j].0, key@),
                forall|j: int| hi <= j < n
                    ==> !lex_less(#[trigger] block.entries()[j].0, key@),
            decreases hi - lo,
        {
            let mid = lo + (hi - lo) / 2;
            let mk = block.entry_key(mid);
            if bytes_lt(mk, key) {
                proof {
                    assert forall|j: int| 0 <= j < mid + 1
                        implies lex_less(#[trigger] block.entries()[j].0, key@) by {
                        if j < mid {
                            assert(lex_less(block.entries()[j].0,
                                block.entries()[mid as int].0));
                            lemma_lex_less_trans(block.entries()[j].0,
                                block.entries()[mid as int].0, key@);
                        }
                    }
                }
                lo = mid + 1;
            } else {
                proof {
                    assert forall|j: int| mid <= j < n
                        implies !lex_less(#[trigger] block.entries()[j].0, key@) by {
                        if j > mid && lex_less(block.entries()[j].0, key@) {
                            assert(lex_less(block.entries()[mid as int].0,
                                block.entries()[j].0));
                            lemma_lex_less_trans(block.entries()[mid as int].0,
                                block.entries()[j].0, key@);
                        }
                    }
                }
                hi = mid;
            }
        }
        if lo < n {
            BlockIterator { block, state: IterState::Positioned(lo) }
        } else {
            BlockIterator { block, state: IterState::Exhausted }
        }
    }

    /// Whether the cursor currently references a real entry.
    pub fn is_valid(&self) -> (r: bool)
        ensures
            r == (self.state is Positioned),
    {
        match self.state {
            IterState::Positioned(_) => true,
            IterState::Exhausted => false,
        }
    }

    /// Key of the current entry. The cursor must be valid.
    pub fn key(&self) -> (k: &[u8])
        requires
            self.wf(),
            self.state is Positioned,
        ensures
            self.state matches IterState::Positioned(i)
                ==> k@ == self.entries()[i as int].0,
    {
        match self.state {
            IterState::Positioned(i) => self.block.entry_key(i),
            IterState::Exhausted => unreached(),
        }
    }

    /// Value of the current entry. The cursor must be valid.
    pub fn value(&self) -> (v: &[u8])
        requires
            self.wf(),
            self.state is Positioned,
        ensures
            self.state matches IterState::Positioned(i)
                ==> v@ == self.entries()[i as int].1,
    {
        match self.state {
            IterState::Positioned(i) => self.block.entry_value(i),
            IterState::Exhausted => unreached(),
        }
    }

    /// Advances to the next entry, or to exhausted past the last entry.
    /// An exhausted iterator stays exhausted.
    pub fn next(&mut self)
        requires
            old(self).wf(),
        ensures
            final(self).wf(),
            final(self).block == old(self).block,
            final(self).state == (match old(self).state {
                IterState::Positioned(i) => {
                    if i + 1 < old(self).block.offsets@.len() {
                        IterState::Positioned((i + 1) as usize)
                    } else {
                        IterState::Exhausted
                    }
                },
                IterState::Exhausted => IterState::Exhausted,
            }),
    {
        match self.state {
            IterState::Positioned(i) => {
                if i + 1 < self.block.offsets.len() {
                    self.state = IterState::Positioned(i + 1);
                } else {
                    self.state = IterState::Exhausted;
                }
            },
            IterState::Exhausted => {},
        }
    }
}

} // verus!
