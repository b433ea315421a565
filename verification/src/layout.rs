//! Mathematical model of the block wire format.
//!
//! A block's data region holds entries back to back, each serialized as
//! `key_len (u8) | key | value_len (u8) | value`. The encoded form appends
//! one little-endian `u16` start offset per entry and a trailing
//! little-endian `u16` entry count.

use vstd::prelude::*;
use vstd::bytes::spec_u16_to_le_bytes;
use vstd::bytes::spec_u16_from_le_bytes;

verus! {

/// Largest number of entries a block may hold: the trailing count is a `u16`.
pub const MAX_ENTRIES: usize = 0xffff;

/// Largest number of packed entry bytes a block may hold: starts must fit a `u16`.
pub const MAX_DATA_BYTES: usize = 0x10000;

/// Largest key or value length: each is prefixed by a single length byte.
pub const MAX_LEN: usize = 0xff;

/// The serialized form of one entry.
pub open spec fn entry_bytes(key: Seq<u8>, value: Seq<u8>) -> Seq<u8> {
    seq![key.len() as u8] + key + seq![value.len() as u8] + value
}

/// A key or value that the format can represent: keys are non-empty and both
/// lengths fit their single-byte prefix.
pub open spec fn valid_entry(key: Seq<u8>, value: Seq<u8>) -> bool {
    &&& 1 <= key.len() <= MAX_LEN
    &&& value.len() <= MAX_LEN
}

/// Key length of the entry starting at `off` in `b`.
pub open spec fn key_len_at(b: Seq<u8>, off: int) -> int {
    b[off] as int
}

/// Value length of the entry starting at `off` in `b`.
pub open spec fn val_len_at(b: Seq<u8>, off: int) -> int {
    b[off + 1 + key_len_at(b, off)] as int
}

/// One past the last byte of the entry starting at `off` in `b`.
pub open spec fn entry_end(b: Seq<u8>, off: int) -> int {
    off + 2 + key_len_at(b, off) + val_len_at(b, off)
}

/// Key of the entry starting at `off` in `b`.
pub open spec fn key_at(b: Seq<u8>, off: int) -> Seq<u8> {
    b.subrange(off + 1, off + 1 + key_len_at(b, off))
}

/// Value of the entry starting at `off` in `b`.
pub open spec fn val_at(b: Seq<u8>, off: int) -> Seq<u8> {
    b.subrange(off + 2 + key_len_at(b, off), entry_end(b, off))
}

/// The entry starting at `off` lies entirely inside `b[..limit]`.
pub open spec fn entry_in_bounds(b: Seq<u8>, off: int, limit: int) -> bool {
    &&& 0 <= off
    &&& entry_end(b, off) <= limit
    &&& limit <= b.len()
}

/// Well-formedness of a block's raw parts: every offset starts an in-bounds
/// entry, the entries are contiguous from position zero, and the format's
/// `u16` caps on entry count and data size hold.
pub open spec fn block_wf(data: Seq<u8>, offsets: Seq<u16>) -> bool {
    &&& offsets.len() <= MAX_ENTRIES
    &&& data.len() <= MAX_DATA_BYTES
    &&& (offsets.len() == 0 ==> data.len() == 0)
    &&& (offsets.len() > 0 ==> offsets[0] == 0)
    &&& (forall|i: int| 0 <= i < offsets.len()
            ==> entry_in_bounds(data, #[trigger] offsets[i] as int, data.len() as int))
    &&& (forall|i: int| 0 <= i < offsets.len() - 1
            ==> #[trigger] offsets[i + 1] as int == entry_end(data, offsets[i] as int))
    &&& (offsets.len() > 0 ==> entry_end(data, offsets[offsets.len() - 1] as int) == data.len())
}

/// The logical entry sequence of a block given by its raw parts.
pub open spec fn block_entries(data: Seq<u8>, offsets: Seq<u16>) -> Seq<(Seq<u8>, Seq<u8>)> {
    Seq::new(
        offsets.len(),
        |i: int| (key_at(data, offsets[i] as int), val_at(data, offsets[i] as int)),
    )
}

/// The offset table serialized as little-endian `u16` values.
pub open spec fn offsets_bytes(offsets: Seq<u16>) -> Seq<u8>
    decreases offsets.len(),
{
    if offsets.len() == 0 {
        Seq::empty()
    } else {
        offsets_bytes(offsets.drop_last()) + spec_u16_to_le_bytes(offsets.last())
    }
}

/// The encoded form of a block: data region, offset table, entry count.
pub open spec fn encode_bytes(data: Seq<u8>, offsets: Seq<u16>) -> Seq<u8> {
    data + offsets_bytes(offsets) + spec_u16_to_le_bytes(offsets.len() as u16)
}

/// The entry count declared by an encoded block's trailing two bytes.
pub open spec fn decoded_count(bytes: Seq<u8>) -> int
    recommends bytes.len() >= 2,
{
    spec_u16_from_le_bytes(bytes.subrange(bytes.len() - 2, bytes.len() as int)) as int
}

/// Where an encoded block's data region ends and its offset table begins.
pub open spec fn decoded_data_end(bytes: Seq<u8>) -> int {
    bytes.len() - 2 - 2 * decoded_count(bytes)
}

/// The `i`-th offset read from an encoded block's offset table.
pub open spec fn decoded_offset(bytes: Seq<u8>, i: int) -> int {
    spec_u16_from_le_bytes(
        bytes.subrange(decoded_data_end(bytes) + 2 * i, decoded_data_end(bytes) + 2 * i + 2),
    ) as int
}

/// An exact image of `encode_bytes` on some well-formed block: the declared
/// count and offsets describe contiguous in-bounds entries that fill the
/// data region, within the format's caps.
pub open spec fn valid_encoding(bytes: Seq<u8>) -> bool {
    let count = decoded_count(bytes);
    let data_end = decoded_data_end(bytes);
    &&& bytes.len() >= 2
    &&& 2 + 2 * count <= bytes.len()
    &&& data_end <= MAX_DATA_BYTES
    &&& (count == 0 ==> data_end == 0)
    &&& (count > 0 ==> decoded_offset(bytes, 0) == 0)
    &&& (forall|i: int| 0 <= i < count
            ==> entry_in_bounds(bytes, #[trigger] decoded_offset(bytes, i), data_end))
    &&& (forall|i: int| 0 <= i < count - 1
            ==> #[trigger] decoded_offset(bytes, i + 1)
                == entry_end(bytes, decoded_offset(bytes, i)))
    &&& (count > 0 ==> entry_end(bytes, decoded_offset(bytes, count - 1)) == data_end)
}

/// The entry sequence named by an encoded block's offset table.
pub open spec fn decoded_entries(bytes: Seq<u8>) -> Seq<(Seq<u8>, Seq<u8>)> {
    Seq::new(
        decoded_count(bytes) as nat,
        |i: int| (key_at(bytes, decoded_offset(bytes, i)), val_at(bytes, decoded_offset(bytes, i))),
    )
}

/// Two byte sequences that agree below `limit` describe the same in-bounds
/// entry at `off`.
pub proof fn lemma_entry_agree(a: Seq<u8>, b: Seq<u8>, off: int, limit: int)
    requires
        entry_in_bounds(a, off, limit),
        limit <= b.len(),
        forall|j: int| 0 <= j < limit ==> a[j] == b[j],
    ensures
        entry_in_bounds(b, off, limit),
        key_len_at(b, off) == key_len_at(a, off),
        val_len_at(b, off) == val_len_at(a, off),
        entry_end(b, off) == entry_end(a, off),
        key_at(b, off) == key_at(a, off),
        val_at(b, off) == val_at(a, off),
{
    assert(off + 2 <= entry_end(a, off));
    assert(off < limit);
    assert(b[off] == a[off]);
    let klen = key_len_at(a, off);
    assert(off + 1 + klen < entry_end(a, off));
    assert(b[off + 1 + klen] == a[off + 1 + klen]);
    assert(key_at(b, off) =~= key_at(a, off));
    assert(val_at(b, off) =~= val_at(a, off));
}

/// The serialized offset table is two bytes per offset.
pub proof fn lemma_offsets_bytes_len(offsets: Seq<u16>)
    ensures
        offsets_bytes(offsets).len() == 2 * offsets.len(),
    decreases offsets.len(),
{
    vstd::bytes::lemma_auto_spec_u16_to_from_le_bytes();
    if offsets.len() > 0 {
        lemma_offsets_bytes_len(offsets.drop_last());
    }
}

/// The `i`-th pair of bytes in the serialized offset table is the
/// little-endian form of the `i`-th offset.
pub proof fn lemma_offsets_bytes_index(offsets: Seq<u16>, i: int)
    requires
        0 <= i < offsets.len(),
    ensures
        offsets_bytes(offsets).subrange(2 * i, 2 * i + 2)
            == spec_u16_to_le_bytes(offsets[i]),
    decreases offsets.len(),
{
    vstd::bytes::lemma_auto_spec_u16_to_from_le_bytes();
    lemma_offsets_bytes_len(offsets.drop_last());
    if i == offsets.len() - 1 {
        assert(offsets_bytes(offsets).subrange(2 * i, 2 * i + 2)
            =~= spec_u16_to_le_bytes(offsets.last()));
    } else {
        lemma_offsets_bytes_index(offsets.drop_last(), i);
        assert(offsets_bytes(offsets).subrange(2 * i, 2 * i + 2)
            =~= offsets_bytes(offsets.drop_last()).subrange(2 * i, 2 * i + 2));
    }
}

/// In a well-formed block the offsets never decrease between `i` and `j`.
proof fn lemma_offsets_increase_upto(data: Seq<u8>, offsets: Seq<u16>, i: int, j: int)
    requires
        block_wf(data, offsets),
        0 <= i <= j < offsets.len(),
    ensures
        offsets[i] <= offsets[j],
        i < j ==> offsets[i] as int + 2 <= offsets[j] as int,
    decreases j - i,
{
    if i < j {
        lemma_offsets_increase_upto(data, offsets, i, j - 1);
        assert(offsets[(j - 1) + 1] as int == entry_end(data, offsets[j - 1] as int));
    }
}

/// Monotonic offsets: in any well-formed block the offset table is strictly
/// increasing and every offset starts an entry lying inside the data region.
pub proof fn lemma_block_offsets_increasing(data: Seq<u8>, offsets: Seq<u16>)
    requires
        block_wf(data, offsets),
    ensures
        forall|i: int, j: int| 0 <= i < j < offsets.len()
            ==> #[trigger] offsets[i] < #[trigger] offsets[j],
        forall|i: int| 0 <= i < offsets.len()
            ==> entry_in_bounds(data, #[trigger] offsets[i] as int, data.len() as int),
{
    assert forall|i: int, j: int| 0 <= i < j < offsets.len()
        implies #[trigger] offsets[i] < #[trigger] offsets[j] by {
        lemma_offsets_increase_upto(data, offsets, i, j);
    }
}

/// Appending a valid entry at the end of a well-formed block keeps it
/// well-formed and extends its entry sequence by exactly that entry.
pub proof fn lemma_wf_push_entry(data: Seq<u8>, offsets: Seq<u16>, key: Seq<u8>, value: Seq<u8>)
    requires
        block_wf(data, offsets),
        valid_entry(key, value),
        data.len() + 2 + key.len() + value.len() <= MAX_DATA_BYTES,
        offsets.len() + 1 <= MAX_ENTRIES,
    ensures
        block_wf(data + entry_bytes(key, value), offsets.push(data.len() as u16)),
        block_entries(data + entry_bytes(key, value), offsets.push(data.len() as u16))
            == block_entries(data, offsets).push((key, value)),
{
    let eb = entry_bytes(key, value);
    let nd = data + eb;
    let noffs = offsets.push(data.len() as u16);
    let off0 = data.len() as int;

    assert(eb.len() == 2 + key.len() + value.len());
    assert(eb[0] == key.len() as u8);
    assert(eb[1 + key.len() as int] == value.len() as u8);

    assert(key_len_at(nd, off0) == key.len());
    assert(val_len_at(nd, off0) == value.len());
    assert(entry_end(nd, off0) == nd.len());
    assert(key_at(nd, off0) =~= key);
    assert(val_at(nd, off0) =~= value);

    assert forall|i: int| 0 <= i < offsets.len()
        implies entry_in_bounds(nd, #[trigger] offsets[i] as int, nd.len() as int)
            && entry_end(nd, offsets[i] as int) == entry_end(data, offsets[i] as int)
            && key_at(nd, offsets[i] as int) == key_at(data, offsets[i] as int)
            && val_at(nd, offsets[i] as int) == val_at(data, offsets[i] as int) by {
        lemma_entry_agree(data, nd, offsets[i] as int, data.len() as int);
    }

    assert forall|i: int| 0 <= i < noffs.len() - 1
        implies #[trigger] noffs[i + 1] as int == entry_end(nd, noffs[i] as int) by {
        if i < offsets.len() - 1 {
            assert(offsets[i + 1] as int == entry_end(data, offsets[i] as int));
        } else {
            assert(entry_end(data, offsets[i] as int) == data.len());
        }
    }

    assert(block_wf(nd, noffs));
    assert(block_entries(nd, noffs) =~= block_entries(data, offsets).push((key, value)));
}

/// Round trip: decoding the encoded form of any well-formed block succeeds
/// and reproduces the block's data region, offset table, and entry sequence.
pub proof fn lemma_encode_decode_round_trip(data: Seq<u8>, offsets: Seq<u16>)
    requires
        block_wf(data, offsets),
    ensures
        valid_encoding(encode_bytes(data, offsets)),
        decoded_count(encode_bytes(data, offsets)) == offsets.len(),
        decoded_data_end(encode_bytes(data, offsets)) == data.len(),
        forall|i: int| 0 <= i < offsets.len()
            ==> #[trigger] decoded_offset(encode_bytes(data, offsets), i) == offsets[i],
        decoded_entries(encode_bytes(data, offsets)) == block_entries(data, offsets),
{
    vstd::bytes::lemma_auto_spec_u16_to_from_le_bytes();
    let enc = encode_bytes(data, offsets);
    let n = offsets.len() as int;
    lemma_offsets_bytes_len(offsets);
    assert(enc.len() == data.len() + 2 * n + 2);

    assert(enc.subrange(enc.len() - 2, enc.len() as int)
        =~= spec_u16_to_le_bytes(offsets.len() as u16));
    assert(decoded_count(enc) == n);
    assert(decoded_data_end(enc) == data.len());

    assert forall|i: int| 0 <= i < n
        implies #[trigger] decoded_offset(enc, i) == offsets[i] by {
        lemma_offsets_bytes_index(offsets, i);
        assert(enc.subrange(data.len() + 2 * i, data.len() + 2 * i + 2)
            =~= offsets_bytes(offsets).subrange(2 * i, 2 * i + 2));
    }

    assert forall|i: int| 0 <= i < n
        implies entry_in_bounds(enc, #[trigger] decoded_offset(enc, i), data.len() as int)
            && entry_end(enc, decoded_offset(enc, i))
                == entry_end(data, offsets[i] as int)
            && key_at(enc, decoded_offset(enc, i)) == key_at(data, offsets[i] as int)
            && val_at(enc, decoded_offset(enc, i)) == val_at(data, offsets[i] as int) by {
        lemma_entry_agree(data, enc, offsets[i] as int, data.len() as int);
    }

    assert forall|i: int| 0 <= i < n - 1
        implies #[trigger] decoded_offset(enc, i + 1)
            == entry_end(enc, decoded_offset(enc, i)) by {
        assert(offsets[i + 1] as int == entry_end(data, offsets[i] as int));
    }

    assert(valid_encoding(enc));
    assert(decoded_entries(enc) =~= block_entries(data, offsets));
}

} // verus!
