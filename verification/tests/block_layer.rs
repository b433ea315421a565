use lsm_block::block::Block;
use lsm_block::block::BlockError;
use lsm_block::builder::BlockBuilder;
use lsm_block::iterator::BlockIterator;

fn build_from(block_size: usize, pairs: &[(&[u8], &[u8])]) -> Block {
    let mut b = BlockBuilder::new(block_size);
    for (k, v) in pairs {
        assert_eq!(b.add(k, v), Ok(true));
    }
    b.build()
}

fn collect(block: Block) -> Vec<(Vec<u8>, Vec<u8>)> {
    let mut out = Vec::new();
    let mut it = BlockIterator::create_and_seek_to_first(block);
    while it.is_valid() {
        out.push((it.key().to_vec(), it.value().to_vec()));
        it.next();
    }
    out
}

#[test]
fn two_entries_build_and_iterate() {
    let block = build_from(64, &[(b"apple", b"red"), (b"banana", b"yellow")]);
    let got = collect(block);
    assert_eq!(
        got,
        vec![
            (b"apple".to_vec(), b"red".to_vec()),
            (b"banana".to_vec(), b"yellow".to_vec()),
        ]
    );
}

#[test]
fn encode_exact_bytes_and_length() {
    let block = build_from(64, &[(b"apple", b"red"), (b"banana", b"yellow")]);
    let enc = block.encode();
    // 2 bytes per offset, 2 for the count, 2 + key + value per entry.
    assert_eq!(enc.len(), 2 * 2 + 2 + (2 + 5 + 3) + (2 + 6 + 6));
    let mut expected: Vec<u8> = Vec::new();
    expected.push(5);
    expected.extend_from_slice(b"apple");
    expected.push(3);
    expected.extend_from_slice(b"red");
    expected.push(6);
    expected.extend_from_slice(b"banana");
    expected.push(6);
    expected.extend_from_slice(b"yellow");
    expected.extend_from_slice(&[0, 0]); // offset 0, little endian
    expected.extend_from_slice(&[10, 0]); // offset 10, little endian
    expected.extend_from_slice(&[2, 0]); // entry count, little endian
    assert_eq!(enc.as_ref(), expected.as_slice());
}

#[test]
fn encode_decode_round_trip() {
    let block = build_from(4096, &[(b"a", b"1"), (b"bb", b"22"), (b"ccc", b"333")]);
    let orig_offsets = block.offsets.clone();
    let orig_data = block.data.clone();
    let enc = block.encode();
    let back = Block::decode(enc.as_ref()).expect("round trip must decode");
    assert_eq!(back.offsets, orig_offsets);
    assert_eq!(back.data, orig_data);
    let got = collect(back);
    assert_eq!(
        got,
        vec![
            (b"a".to_vec(), b"1".to_vec()),
            (b"bb".to_vec(), b"22".to_vec()),
            (b"ccc".to_vec(), b"333".to_vec()),
        ]
    );
}

#[test]
fn offsets_strictly_increasing() {
    let block = build_from(4096, &[(b"a", b"1"), (b"bb", b"22"), (b"ccc", b"333")]);
    assert_eq!(block.offsets.len(), 3);
    for w in block.offsets.windows(2) {
        assert!(w[0] < w[1]);
    }
    for &off in &block.offsets {
        // each offset starts an entry inside the data region
        let off = off as usize;
        assert!(off < block.data.len());
        let klen = block.data[off] as usize;
        let vlen = block.data[off + 1 + klen] as usize;
        assert!(off + 2 + klen + vlen <= block.data.len());
    }
}

#[test]
fn first_add_always_succeeds_even_over_budget() {
    // a 20-byte entry into a 10-byte block
    let mut b = BlockBuilder::new(10);
    assert!(b.is_empty());
    assert_eq!(b.add(&[7u8; 9], &[8u8; 9]), Ok(true));
    assert!(!b.is_empty());
    // any further entry exceeds the budget
    assert_eq!(b.add(b"k", b"v"), Ok(false));
    let block = b.build();
    let got = collect(block);
    assert_eq!(got, vec![(vec![7u8; 9], vec![8u8; 9])]);
}

#[test]
fn budget_rejection_leaves_builder_unchanged() {
    // entry "ab"/"cd": 6 data bytes + 2 offset bytes + 2 count bytes = 10
    let mut b = BlockBuilder::new(21);
    assert_eq!(b.add(b"ab", b"cd"), Ok(true));
    // second entry would need 6 + 4 + 2 + 6 = 18 <= 21, fits
    assert_eq!(b.add(b"ef", b"gh"), Ok(true));
    // third entry would need 12 + 6 + 2 + 6 = 26 > 21: rejected
    assert_eq!(b.add(b"ij", b"kl"), Ok(false));
    let data_before = b.data.clone();
    let offsets_before = b.offsets.clone();
    assert_eq!(b.add(b"mn", b"op"), Ok(false));
    assert_eq!(b.data, data_before);
    assert_eq!(b.offsets, offsets_before);
    let got = collect(b.build());
    assert_eq!(
        got,
        vec![(b"ab".to_vec(), b"cd".to_vec()), (b"ef".to_vec(), b"gh".to_vec())]
    );
}

#[test]
fn boundary_exactly_filling_budget_is_accepted() {
    // two "ab"/"cd" entries encode to exactly 12 + 4 + 2 = 18 bytes
    let mut b = BlockBuilder::new(18);
    assert_eq!(b.add(b"ab", b"cd"), Ok(true));
    assert_eq!(b.add(b"ef", b"gh"), Ok(true));
    let block = b.build();
    assert_eq!(block.encode().len(), 18);
    // one byte less of budget and the second entry is refused
    let mut b = BlockBuilder::new(17);
    assert_eq!(b.add(b"ab", b"cd"), Ok(true));
    assert_eq!(b.add(b"ef", b"gh"), Ok(false));
}

#[test]
fn invalid_entries_are_rejected_and_state_kept() {
    let mut b = BlockBuilder::new(4096);
    assert_eq!(b.add(b"", b"v"), Err(BlockError::InvalidEntry));
    assert!(b.is_empty());
    let long = vec![1u8; 256];
    assert_eq!(b.add(&long, b"v"), Err(BlockError::InvalidEntry));
    assert_eq!(b.add(b"k", &long), Err(BlockError::InvalidEntry));
    assert!(b.is_empty());
    // 255-byte key and value are the largest valid lengths
    let max = vec![2u8; 255];
    assert_eq!(b.add(&max, &max), Ok(true));
    assert_eq!(b.add(b"", b""), Err(BlockError::InvalidEntry));
    let got = collect(b.build());
    assert_eq!(got, vec![(max.clone(), max)]);
}

#[test]
fn data_region_cap_is_enforced() {
    // a generous budget lets entries accumulate until the u16 format cap
    let mut b = BlockBuilder::new(10_000_000);
    let key = vec![3u8; 255];
    let value = vec![4u8; 255];
    for _ in 0..128 {
        // each entry is 512 data bytes; 128 of them fill 65536 exactly
        assert_eq!(b.add(&key, &value), Ok(true));
    }
    assert_eq!(b.add(&key, &value), Ok(false));
    assert_eq!(b.add(b"k", b"v"), Ok(false));
    let block = b.build();
    assert_eq!(block.data.len(), 65536);
    assert_eq!(block.offsets.len(), 128);
}

#[test]
fn first_key_tracks_most_recent_add() {
    let mut b = BlockBuilder::new(4096);
    assert_eq!(b.add(b"aa", b"1"), Ok(true));
    assert_eq!(b.first_key, b"aa".to_vec());
    assert_eq!(b.add(b"bb", b"2"), Ok(true));
    assert_eq!(b.first_key, b"bb".to_vec());
    assert_eq!(b.add(b"", b"3"), Err(BlockError::InvalidEntry));
    assert_eq!(b.first_key, b"bb".to_vec());
}

#[test]
fn decode_rejects_corrupt_input() {
    // too short for the trailing count
    assert!(matches!(Block::decode(&[]), Err(BlockError::CorruptBlock)));
    assert!(matches!(Block::decode(&[0]), Err(BlockError::CorruptBlock)));
    // count says one entry but there is no offset table
    assert!(matches!(Block::decode(&[1, 0]), Err(BlockError::CorruptBlock)));
    // count 1, offset 0, but no entry bytes at all
    assert!(matches!(Block::decode(&[0, 0, 1, 0]), Err(BlockError::CorruptBlock)));
    // entry whose declared value length overruns the data region:
    // data region [1, b'k', 9]: key "k", value length 9 with no value bytes
    assert!(matches!(Block::decode(&[1, b'k', 9, 0, 0, 1, 0]), Err(BlockError::CorruptBlock)));
    // first offset not zero
    assert!(matches!(Block::decode(&[1, b'k', 0, 1, 0, 1, 0]), Err(BlockError::CorruptBlock)));
}

#[test]
fn decode_rejects_tampered_count() {
    let block = build_from(64, &[(b"apple", b"red")]);
    let enc = block.encode();
    let mut bad: Vec<u8> = enc.as_ref().to_vec();
    let n = bad.len();
    bad[n - 2] = 9;
    assert!(matches!(Block::decode(&bad), Err(BlockError::CorruptBlock)));
}

#[test]
fn decode_accepts_exact_valid_entry() {
    // one entry "k" -> "vv", offsets [0], count 1
    let bytes = [1, b'k', 2, b'v', b'v', 0, 0, 1, 0];
    let block = Block::decode(&bytes).expect("well-formed bytes must decode");
    let got = collect(block);
    assert_eq!(got, vec![(b"k".to_vec(), b"vv".to_vec())]);
}

#[test]
fn decode_count_zero_gives_empty_block() {
    let block = Block::decode(&[0, 0]).expect("an empty table decodes");
    assert_eq!(block.offsets.len(), 0);
    let it = BlockIterator::create_and_seek_to_first(block);
    assert!(!it.is_valid());
}

#[test]
fn seek_lands_on_smallest_key_at_least_query() {
    let block = build_from(64, &[(b"b", b"1"), (b"d", b"2"), (b"f", b"3")]);
    let it = BlockIterator::create_and_seek_to_key(block, b"c");
    assert!(it.is_valid());
    assert_eq!(it.key().to_vec(), b"d".to_vec());
    assert_eq!(it.value().to_vec(), b"2".to_vec());
}

#[test]
fn seek_past_last_key_is_exhausted() {
    let block = build_from(64, &[(b"b", b"1"), (b"d", b"2"), (b"f", b"3")]);
    let it = BlockIterator::create_and_seek_to_key(block, b"g");
    assert!(!it.is_valid());
}

#[test]
fn seek_before_first_key_lands_on_first() {
    let block = build_from(64, &[(b"b", b"1"), (b"d", b"2"), (b"f", b"3")]);
    let it = BlockIterator::create_and_seek_to_key(block, b"a");
    assert!(it.is_valid());
    assert_eq!(it.key().to_vec(), b"b".to_vec());
}

#[test]
fn seek_to_exact_key_lands_on_it() {
    let block = build_from(64, &[(b"b", b"1"), (b"d", b"2"), (b"f", b"3")]);
    let it = BlockIterator::create_and_seek_to_key(block, b"d");
    assert!(it.is_valid());
    assert_eq!(it.key().to_vec(), b"d".to_vec());
    let block2 = build_from(64, &[(b"b", b"1"), (b"d", b"2"), (b"f", b"3")]);
    let it2 = BlockIterator::create_and_seek_to_key(block2, b"f");
    assert!(it2.is_valid());
    assert_eq!(it2.key().to_vec(), b"f".to_vec());
}

#[test]
fn seek_respects_prefix_order() {
    let block = build_from(64, &[(b"ab", b"1"), (b"abc", b"2"), (b"b", b"3")]);
    let it = BlockIterator::create_and_seek_to_key(block, b"abb");
    assert!(it.is_valid());
    assert_eq!(it.key().to_vec(), b"abc".to_vec());
}

#[test]
fn next_visits_all_entries_then_stays_exhausted() {
    let block = build_from(
        4096,
        &[(b"a", b"1"), (b"b", b"2"), (b"c", b"3"), (b"d", b"4")],
    );
    let mut it = BlockIterator::create_and_seek_to_first(block);
    let mut seen = Vec::new();
    while it.is_valid() {
        seen.push(it.key().to_vec());
        it.next();
    }
    assert_eq!(seen, vec![b"a".to_vec(), b"b".to_vec(), b"c".to_vec(), b"d".to_vec()]);
    assert!(!it.is_valid());
    it.next();
    assert!(!it.is_valid());
    it.next();
    assert!(!it.is_valid());
}

#[test]
fn round_trip_iterates_same_sequence_as_original() {
    let pairs: Vec<(Vec<u8>, Vec<u8>)> = (0u8..50)
        .map(|i| (vec![b'k', i], vec![i, i, i]))
        .collect();
    let mut b = BlockBuilder::new(1 << 16);
    for (k, v) in &pairs {
        assert_eq!(b.add(k, v), Ok(true));
    }
    let block = b.build();
    let enc = block.encode();
    let back = Block::decode(enc.as_ref()).expect("must decode");
    let got = collect(back);
    assert_eq!(got, pairs);
}
