use bam::bins::{bin_to_region, reg2bin, region_to_bins, MAX_BIN};
use bam::record::{CigarOp, Corruption, Error, InputError, Record};
use bam::reader::{IndexedReader, ModificationTime, Reader, TimeVerdict};
use bam::voffset::VirtualOffset;
use bam::{Block, Container, Index};

fn push_u16(v: &mut Vec<u8>, x: u16) {
    v.extend_from_slice(&x.to_le_bytes());
}

fn push_u32(v: &mut Vec<u8>, x: u32) {
    v.extend_from_slice(&x.to_le_bytes());
}

fn push_u64(v: &mut Vec<u8>, x: u64) {
    v.extend_from_slice(&x.to_le_bytes());
}

fn header_bytes(lengths: &[u32]) -> Vec<u8> {
    let mut v = vec![66, 65, 77, 1];
    push_u32(&mut v, 0);
    push_u32(&mut v, lengths.len() as u32);
    for (i, len) in lengths.iter().enumerate() {
        let name = format!("chr{}\0", i + 1);
        push_u32(&mut v, name.len() as u32);
        v.extend_from_slice(name.as_bytes());
        push_u32(&mut v, *len);
    }
    v
}

fn record_bytes(ref_id: i32, start: i32, bin: u16, flag: u16, cigar: &[(u32, u8)], name: &str) -> Vec<u8> {
    let l_seq: u32 = cigar
        .iter()
        .filter(|(_, op)| [0u8, 1, 4, 7, 8].contains(op))
        .map(|(len, _)| *len)
        .sum();
    let mut body = Vec::new();
    body.extend_from_slice(&ref_id.to_le_bytes());
    body.extend_from_slice(&start.to_le_bytes());
    body.push(name.len() as u8 + 1);
    body.push(60);
    push_u16(&mut body, bin);
    push_u16(&mut body, cigar.len() as u16);
    push_u16(&mut body, flag);
    push_u32(&mut body, l_seq);
    body.extend_from_slice(&(-1i32).to_le_bytes());
    body.extend_from_slice(&(-1i32).to_le_bytes());
    body.extend_from_slice(&0i32.to_le_bytes());
    body.extend_from_slice(name.as_bytes());
    body.push(0);
    for (len, op) in cigar {
        push_u32(&mut body, (len << 4) | *op as u32);
    }
    for _ in 0..(l_seq + 1) / 2 {
        body.push(0x12);
    }
    for _ in 0..l_seq {
        body.push(30);
    }
    let mut v = Vec::new();
    push_u32(&mut v, body.len() as u32);
    v.extend_from_slice(&body);
    v
}

/// One-block container: the header, then the records; and an index that files
/// all records, which lie in the first window, under one chunk of bin 4681.
fn build(lengths: &[u32], n_index_refs: u32, records: &[(i32, u16, Vec<(u32, u8)>)]) -> (Container, Vec<u8>) {
    let mut data = header_bytes(lengths);
    let first = data.len() as u64;
    for (i, (start, bin, cigar)) in records.iter().enumerate() {
        data.extend(record_bytes(0, *start, *bin, 0, cigar, &format!("r{}", i)));
    }
    let last = data.len() as u64;
    let container = Container::new(vec![Block { coffset: 0, data }]).unwrap();
    let mut idx = vec![66, 65, 73, 1];
    push_u32(&mut idx, n_index_refs);
    for r in 0..n_index_refs {
        if r == 0 {
            push_u32(&mut idx, 1);
            push_u32(&mut idx, 4681);
            push_u32(&mut idx, 1);
            push_u64(&mut idx, first);
            push_u64(&mut idx, last);
            push_u32(&mut idx, 1);
            push_u64(&mut idx, first);
        } else {
            push_u32(&mut idx, 0);
            push_u32(&mut idx, 0);
        }
    }
    (container, idx)
}

fn open(lengths: &[u32], n_index_refs: u32, records: &[(i32, u16, Vec<(u32, u8)>)]) -> IndexedReader {
    let (container, idx) = build(lengths, n_index_refs, records);
    IndexedReader::build().from_streams(container, &idx).unwrap()
}

fn starts(reader: &mut IndexedReader, ref_id: u32, start: u32, end: u32) -> Vec<i32> {
    let mut viewer = reader.fetch(ref_id, start, end).unwrap();
    let mut out = Vec::new();
    while let Some(r) = viewer.next() {
        out.push(r.unwrap().start);
    }
    out
}

#[test]
fn single_record_fetch_windows() {
    let mut reader = open(&[1000], 1, &[(100, reg2bin(100, 110), vec![(10, 0)])]);
    assert_eq!(starts(&mut reader, 0, 105, 106), vec![100]);
    assert_eq!(starts(&mut reader, 0, 90, 95), Vec::<i32>::new());
    assert_eq!(starts(&mut reader, 0, 109, 110), vec![100]);
    assert_eq!(starts(&mut reader, 0, 110, 111), Vec::<i32>::new());
}

#[test]
fn fetch_rejects_start_after_end() {
    let mut reader = open(&[1000], 1, &[(100, reg2bin(100, 110), vec![(10, 0)])]);
    match reader.fetch(0, 200, 100) {
        Err(e) => assert_eq!(e, Error::InvalidInput(InputError::StartAfterEnd)),
        Ok(_) => panic!("expected an error"),
    }
}

#[test]
fn fetch_rejects_unknown_reference() {
    let mut reader = open(&[1000, 1000, 1000], 6, &[(100, reg2bin(100, 110), vec![(10, 0)])]);
    match reader.fetch(5, 0, 10) {
        Err(e) => assert_eq!(e, Error::InvalidInput(InputError::ReferenceOutOfBounds)),
        Ok(_) => panic!("expected an error"),
    }
}

#[test]
fn fetch_rejects_end_past_reference() {
    let mut reader = open(&[1000], 1, &[(100, reg2bin(100, 110), vec![(10, 0)])]);
    match reader.fetch(0, 0, 1001) {
        Err(e) => assert_eq!(e, Error::InvalidInput(InputError::EndAfterReferenceLength)),
        Ok(_) => panic!("expected an error"),
    }
}

#[test]
fn oversized_bin_is_corruption() {
    let mut reader = open(&[1000], 1, &[(100, MAX_BIN + 1, vec![(10, 0)])]);
    let mut viewer = reader.fetch(0, 105, 106).unwrap();
    match viewer.next() {
        Some(Err(e)) => assert_eq!(e, Error::Corrupted(Corruption::BinTooLarge)),
        _ => panic!("expected corruption"),
    }
}

#[test]
fn fetch_matches_filtered_sequential_read() {
    let recs = vec![
        (10, reg2bin(10, 60), vec![(50, 0)]),
        (100, reg2bin(100, 105), vec![(2, 4), (5, 0)]),
        (150, reg2bin(150, 300), vec![(20, 0), (100, 2), (30, 0)]),
        (400, reg2bin(400, 410), vec![(10, 0)]),
    ];
    let (container, _) = build(&[1000], 1, &recs);
    let mut seq = Reader::from_stream(container).unwrap();
    let mut expected = Vec::new();
    while let Some(r) = seq.next() {
        let r = r.unwrap();
        if r.start < 200 && r.calculate_end() > 55 {
            expected.push(r.start);
        }
    }
    let mut reader = open(&[1000], 1, &recs);
    assert_eq!(starts(&mut reader, 0, 55, 200), expected);
    assert_eq!(expected, vec![10, 100, 150]);
}

#[test]
fn fetch_by_applies_predicate() {
    let recs = vec![
        (100, reg2bin(100, 110), vec![(10, 0)]),
        (102, reg2bin(102, 112), vec![(10, 0)]),
    ];
    let mut reader = open(&[1000], 1, &recs);
    let mut viewer = reader.fetch_by(0, 100, 120, |r: &Record| r.start != 100).unwrap();
    let mut got = Vec::new();
    while let Some(r) = viewer.next() {
        got.push(r.unwrap().start);
    }
    assert_eq!(got, vec![102]);
}

#[test]
fn sequential_reader_reads_all_records() {
    let recs = vec![(5, reg2bin(5, 8), vec![(3, 0)]), (7, reg2bin(7, 9), vec![(2, 0)])];
    let (container, _) = build(&[50], 1, &recs);
    let mut reader = Reader::from_stream(container).unwrap();
    assert_eq!(reader.header().reference_len(0), Some(50));
    let mut rec = Record::new();
    assert_eq!(reader.read_into(&mut rec), Ok(()));
    assert_eq!(rec.start, 5);
    assert_eq!(rec.name, b"r0".to_vec());
    assert_eq!(rec.sequence, b"ACA".to_vec());
    assert_eq!(reader.read_into(&mut rec), Ok(()));
    assert_eq!(rec.cigar, vec![CigarOp { len: 2, op: 0 }]);
    assert_eq!(reader.read_into(&mut rec), Err(Error::NoMoreRecords));
}

#[test]
fn index_rejects_bad_magic() {
    let bytes = vec![1, 2, 3, 4, 0, 0, 0, 0];
    assert!(matches!(Index::from_bytes(&bytes), Err(Error::Corrupted(Corruption::InvalidMagic))));
    assert!(matches!(Index::from_bytes(&vec![66, 65]), Err(Error::Truncated)));
    assert!(matches!(Index::from_bytes(&vec![66, 65, 73, 1, 1, 0, 0, 0]), Err(Error::Truncated)));
}

#[test]
fn fetch_chunks_merges_and_clamps() {
    let mut idx = vec![66, 65, 73, 1];
    push_u32(&mut idx, 1);
    push_u32(&mut idx, 2);
    // bin 4681: two chunks in the same block, the second one overlapping
    push_u32(&mut idx, 4681);
    push_u32(&mut idx, 2);
    push_u64(&mut idx, VirtualOffset::new(0, 10).raw);
    push_u64(&mut idx, VirtualOffset::new(0, 50).raw);
    push_u64(&mut idx, VirtualOffset::new(0, 40).raw);
    push_u64(&mut idx, VirtualOffset::new(2, 5).raw);
    // bin 0, far away
    push_u32(&mut idx, 0);
    push_u32(&mut idx, 1);
    push_u64(&mut idx, VirtualOffset::new(100, 0).raw);
    push_u64(&mut idx, VirtualOffset::new(101, 0).raw);
    push_u32(&mut idx, 1);
    push_u64(&mut idx, VirtualOffset::new(0, 20).raw);
    let index = Index::from_bytes(&idx).unwrap();
    let chunks = index.fetch_chunks(0, 0, 100);
    assert_eq!(chunks.len(), 2);
    assert_eq!(chunks[0].begin, VirtualOffset::new(0, 20));
    assert_eq!(chunks[0].end, VirtualOffset::new(2, 5));
    assert_eq!(chunks[1].begin, VirtualOffset::new(100, 0));
    assert!(index.fetch_chunks(3, 0, 100).is_empty());
}

#[test]
fn chunk_reader_crosses_blocks() {
    let container = Container::new(vec![
        Block { coffset: 0, data: vec![1, 2, 3, 4] },
        Block { coffset: 7, data: vec![5, 6, 7] },
        Block { coffset: 9, data: vec![8, 9] },
    ])
    .unwrap();
    let chunk = bam::Chunk { begin: VirtualOffset::new(0, 2), end: VirtualOffset::new(9, 1) };
    assert_eq!(container.read_chunks(&vec![chunk]), Ok(vec![3, 4, 5, 6, 7, 8]));
    let missing = bam::Chunk { begin: VirtualOffset::new(3, 0), end: VirtualOffset::new(9, 1) };
    assert_eq!(container.read_chunks(&vec![missing]), Err(Error::Truncated));
    assert_eq!(container.read_all(), vec![1, 2, 3, 4, 5, 6, 7, 8, 9]);
    assert!(Container::new(vec![Block { coffset: 5, data: vec![] }, Block { coffset: 5, data: vec![] }]).is_none());
}

#[test]
fn bins_of_small_and_large_intervals() {
    assert_eq!(reg2bin(100, 110), 4681);
    assert_eq!(reg2bin(0, 16385), 585);
    assert_eq!(reg2bin(0, 1 << 29), 0);
    assert_eq!(bin_to_region(4681), (0, 16384));
    assert_eq!(bin_to_region(4682), (16384, 32768));
    assert_eq!(bin_to_region(0), (0, 1 << 29));
    assert_eq!(bin_to_region(1), (0, 1 << 26));
    let bins = region_to_bins(0, 20000);
    assert_eq!(bins, vec![0, 1, 9, 73, 585, 4681, 4682]);
}

#[test]
fn bin_region_holds_interval() {
    for (s, e) in [(0u32, 1u32), (16383, 16385), (100, 200_000), (5_000_000, 90_000_000), (1, 1 << 29)] {
        let (lo, hi) = bin_to_region(reg2bin(s, e));
        assert!(lo as i64 <= s as i64 && hi as i64 >= e as i64);
    }
}

#[test]
fn virtual_offset_round_trip() {
    for raw in [0u64, 1, 65535, 65536, 0x1234_5678_9abc, u64::MAX] {
        let v = VirtualOffset::from_raw(raw);
        assert_eq!(VirtualOffset::new(v.coffset(), v.uoffset()).raw, raw);
    }
    let v = VirtualOffset::new(3, 7);
    assert_eq!(v.raw, 3 * 65536 + 7);
    assert_eq!((v.coffset(), v.uoffset()), (3, 7));
}

#[test]
fn modification_time_policies() {
    assert_eq!(ModificationTime::Error.check(true), TimeVerdict::Refuse);
    assert_eq!(ModificationTime::Error.check(false), TimeVerdict::Proceed);
    assert_eq!(ModificationTime::Ignore.check(true), TimeVerdict::Proceed);
    assert_eq!(ModificationTime::warn().check(true), TimeVerdict::ProceedWithWarning);
    let b = IndexedReader::build().cache_capacity(10).bai_path("x.bai".to_string());
    assert_eq!(b.cache_capacity_value(), 10);
    assert_eq!(b.bai_path_value(), Some(&"x.bai".to_string()));
    assert_eq!(b.modification_time_value(), ModificationTime::Error);
    assert_eq!(IndexedReader::build().cache_capacity_value(), 1000);
}
