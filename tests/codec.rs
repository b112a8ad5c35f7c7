use bam::codec::{decode_record, decode_records, read_i32, read_u16, read_u32, read_u64};
use bam::container::block_frame;
use bam::pileup::Pileup;
use bam::reader::Header;
use bam::record::{CigarOp, Corruption, Error, Record};

fn record_bytes(start: i32, n_cigar_words: &[u32], l_seq: u32) -> Vec<u8> {
    let mut body = Vec::new();
    body.extend_from_slice(&0i32.to_le_bytes());
    body.extend_from_slice(&start.to_le_bytes());
    body.push(3);
    body.push(7);
    body.extend_from_slice(&4681u16.to_le_bytes());
    body.extend_from_slice(&(n_cigar_words.len() as u16).to_le_bytes());
    body.extend_from_slice(&0u16.to_le_bytes());
    body.extend_from_slice(&l_seq.to_le_bytes());
    body.extend_from_slice(&[0xff; 12]);
    body.extend_from_slice(b"ab\0");
    for w in n_cigar_words {
        body.extend_from_slice(&w.to_le_bytes());
    }
    for _ in 0..(l_seq + 1) / 2 {
        body.push(0x48);
    }
    for k in 0..l_seq {
        body.push(k as u8);
    }
    let mut v = (body.len() as u32).to_le_bytes().to_vec();
    v.extend(body);
    v
}

#[test]
fn little_endian_readers() {
    let b = vec![0x01, 0x02, 0x03, 0x04, 0xff, 0xff, 0xff, 0xff];
    assert_eq!(read_u16(&b, 0), 0x0201);
    assert_eq!(read_u32(&b, 0), 0x0403_0201);
    assert_eq!(read_i32(&b, 4), -1);
    assert_eq!(read_u64(&b, 0), 0xffff_ffff_0403_0201);
}

#[test]
fn decode_one_record() {
    let bytes = record_bytes(42, &[(3 << 4) | 0, (1 << 4) | 1], 4);
    let (rec, next) = decode_record(&bytes, 0).unwrap();
    assert_eq!(next, bytes.len());
    assert_eq!(rec.start, 42);
    assert_eq!(rec.mapq, 7);
    assert_eq!(rec.bin, 4681);
    assert_eq!(rec.name, b"ab".to_vec());
    assert_eq!(rec.cigar, vec![CigarOp { len: 3, op: 0 }, CigarOp { len: 1, op: 1 }]);
    assert_eq!(rec.sequence, b"GTGT".to_vec());
    assert_eq!(rec.qualities, vec![0, 1, 2, 3]);
    assert_eq!(rec.calculate_end(), 45);
}

#[test]
fn decode_errors() {
    assert_eq!(decode_record(&vec![], 0).unwrap_err(), Error::NoMoreRecords);
    assert_eq!(decode_record(&vec![1, 0], 0).unwrap_err(), Error::Truncated);
    let bytes = record_bytes(42, &[(3 << 4) | 0], 3);
    assert_eq!(decode_record(&bytes[..bytes.len() - 1].to_vec(), 0).unwrap_err(), Error::Truncated);
    let short = vec![4, 0, 0, 0, 1, 2, 3, 4];
    assert_eq!(decode_record(&short, 0).unwrap_err(), Error::Corrupted(Corruption::BadSize));
    let bad_op = record_bytes(42, &[(3 << 4) | 9], 3);
    assert_eq!(decode_record(&bad_op, 0).unwrap_err(), Error::Corrupted(Corruption::BadCigar));
    let wrong_len = record_bytes(42, &[(3 << 4) | 0], 5);
    assert_eq!(decode_record(&wrong_len, 0).unwrap_err(), Error::Corrupted(Corruption::BadSize));
}

#[test]
fn decode_stream_stops_at_error() {
    let mut bytes = record_bytes(1, &[(3 << 4) | 0], 3);
    bytes.extend(record_bytes(2, &[(3 << 4) | 0], 3));
    bytes.extend_from_slice(&[9, 0]);
    let items = decode_records(&bytes, 0);
    assert_eq!(items.len(), 3);
    assert_eq!(items[1].as_ref().unwrap().start, 2);
    assert_eq!(items[2].as_ref().unwrap_err(), &Error::Truncated);
}

#[test]
fn frame_of_empty_block() {
    let eof = vec![
        0x1f, 0x8b, 0x08, 0x04, 0x00, 0x00, 0x00, 0x00, 0x00, 0xff, 0x06, 0x00, 0x42, 0x43, 0x02,
        0x00, 0x1b, 0x00, 0x03, 0x00, 0x00, 0x00, 0x00, 0x00, 0x00, 0x00, 0x00, 0x00,
    ];
    let f = block_frame(&eof, 0).unwrap();
    assert_eq!(f.next, 28);
    assert_eq!(f.cdata_start, 18);
    assert_eq!(f.cdata_end, 20);
    assert_eq!(f.inflated_size, 0);
    assert_eq!(block_frame(&eof[..10].to_vec(), 0).unwrap_err(), Error::Truncated);
    let mut bad = eof.clone();
    bad[0] = 0;
    assert_eq!(block_frame(&bad, 0).unwrap_err(), Error::Corrupted(Corruption::InvalidMagic));
}

#[test]
fn header_from_bytes() {
    let mut v = vec![66, 65, 77, 1];
    v.extend_from_slice(&2u32.to_le_bytes());
    v.extend_from_slice(b"@H");
    v.extend_from_slice(&1u32.to_le_bytes());
    v.extend_from_slice(&3u32.to_le_bytes());
    v.extend_from_slice(b"c1\0");
    v.extend_from_slice(&77u32.to_le_bytes());
    let (h, p) = Header::from_bytes(&v).unwrap();
    assert_eq!(p, v.len());
    assert_eq!(h.n_references(), 1);
    assert_eq!(h.reference_len(0), Some(77));
    assert_eq!(h.reference_len(1), None);
    assert_eq!(h.reference_name(0), Some(&b"c1".to_vec()));
    assert_eq!(h.text(), &b"@H".to_vec());
    v[0] = 0;
    assert_eq!(Header::from_bytes(&v).unwrap_err(), Error::Corrupted(Corruption::InvalidMagic));
}

#[test]
fn column_sort_orders_by_start_then_name() {
    let mut recs = Vec::new();
    for (start, name) in [(10, "b"), (12, "a"), (10, "a")] {
        let mut r = Record::new();
        r.ref_id = 0;
        r.start = start;
        r.flag = 0;
        r.cigar = vec![CigarOp { len: 5, op: 0 }];
        r.name = name.as_bytes().to_vec();
        recs.push(Ok(r));
    }
    recs.sort_by_key(|r: &Result<Record, Error>| r.as_ref().unwrap().start);
    let mut p = Pileup::new(recs);
    let mut col = loop {
        let c = p.next().unwrap().unwrap();
        if c.ref_pos() == 12 {
            break c;
        }
    };
    col.sort();
    let got: Vec<(i32, Vec<u8>)> =
        col.entries().iter().map(|e| (e.record().start, e.record().name.clone())).collect();
    assert_eq!(got, vec![(10, b"a".to_vec()), (10, b"b".to_vec()), (12, b"a".to_vec())]);
}

#[test]
fn header_with_missing_entry_fails() {
    let mut v = vec![66, 65, 77, 1];
    v.extend_from_slice(&0u32.to_le_bytes());
    v.extend_from_slice(&2u32.to_le_bytes());
    v.extend_from_slice(&3u32.to_le_bytes());
    v.extend_from_slice(b"c1\0");
    v.extend_from_slice(&77u32.to_le_bytes());
    assert_eq!(Header::from_bytes(&v).unwrap_err(), Error::Truncated);
}

#[test]
fn index_chunk_ending_before_its_begin_is_corrupt() {
    let mut v = vec![66, 65, 73, 1];
    v.extend_from_slice(&1u32.to_le_bytes());
    v.extend_from_slice(&1u32.to_le_bytes());
    v.extend_from_slice(&4681u32.to_le_bytes());
    v.extend_from_slice(&1u32.to_le_bytes());
    v.extend_from_slice(&100u64.to_le_bytes());
    v.extend_from_slice(&50u64.to_le_bytes());
    v.extend_from_slice(&0u32.to_le_bytes());
    assert!(matches!(bam::Index::from_bytes(&v), Err(Error::Corrupted(Corruption::BadSize))));
}
