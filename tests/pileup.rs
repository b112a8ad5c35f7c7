use bam::pileup::{AlnType, Pileup};
use bam::record::{CigarOp, Error, Record};

fn rec(ref_id: i32, start: i32, cigar: &[(u32, u8)], name: &str) -> Record {
    let mut r = Record::new();
    r.ref_id = ref_id;
    r.start = start;
    r.flag = 0;
    r.cigar = cigar.iter().map(|&(len, op)| CigarOp { len, op }).collect();
    r.name = name.as_bytes().to_vec();
    r
}

fn columns(p: &mut Pileup) -> Vec<(u32, u32, usize)> {
    let mut out = Vec::new();
    while let Some(c) = p.next() {
        let c = c.unwrap();
        out.push((c.ref_id(), c.ref_pos(), c.entries().len()));
    }
    out
}

#[test]
fn insertion_and_match_at_same_position() {
    let a = rec(0, 100, &[(5, 0), (5, 1), (5, 0)], "a");
    let b = rec(0, 100, &[(10, 0)], "b");
    let mut p = Pileup::new(vec![Ok(a), Ok(b)]);
    let mut found = false;
    while let Some(c) = p.next() {
        let c = c.unwrap();
        if c.ref_pos() == 104 {
            found = true;
            let entries = c.entries();
            assert_eq!(entries.len(), 2);
            let mut types: Vec<(Vec<u8>, AlnType)> =
                entries.iter().map(|e| (e.record().name.clone(), e.aln_type())).collect();
            types.sort_by(|x, y| x.0.cmp(&y.0));
            assert_eq!(types[0], (b"a".to_vec(), AlnType::Insertion(5)));
            assert_eq!(types[1], (b"b".to_vec(), AlnType::Match));
        }
    }
    assert!(found);
}

#[test]
fn unsorted_input_reports_invalid_data_once() {
    let a = rec(0, 200, &[(10, 0)], "a");
    let b = rec(0, 100, &[(10, 0)], "b");
    let mut p = Pileup::new(vec![Ok(a), Ok(b)]);
    let mut positions = Vec::new();
    let mut error = None;
    while let Some(c) = p.next() {
        match c {
            Ok(c) => positions.push(c.ref_pos()),
            Err(e) => {
                error = Some(e);
                break;
            }
        }
    }
    assert!(positions.iter().all(|&pos| pos <= 199));
    assert_eq!(error, Some(Error::InvalidData));
    assert!(p.next().is_none());
    assert!(p.next().is_none());
}

#[test]
fn columns_strictly_increase() {
    let recs = vec![
        Ok(rec(0, 10, &[(3, 0)], "a")),
        Ok(rec(0, 11, &[(2, 0), (2, 2), (1, 0)], "b")),
        Ok(rec(0, 30, &[(2, 0)], "c")),
        Ok(rec(1, 5, &[(2, 0)], "d")),
    ];
    let mut p = Pileup::new(recs);
    let cols = columns(&mut p);
    for w in cols.windows(2) {
        assert!((w[0].0, w[0].1) < (w[1].0, w[1].1));
    }
    assert_eq!(
        cols,
        vec![
            (0, 10, 1),
            (0, 11, 2),
            (0, 12, 2),
            (0, 13, 1),
            (0, 14, 1),
            (0, 15, 1),
            (0, 30, 1),
            (0, 31, 1),
            (1, 5, 1),
            (1, 6, 1),
        ]
    );
}

#[test]
fn every_reference_base_appears_once() {
    let r = rec(0, 50, &[(2, 4), (3, 0), (2, 3), (1, 1), (2, 0)], "x");
    let mut p = Pileup::new(vec![Ok(r)]);
    let cols = columns(&mut p);
    let positions: Vec<u32> = cols.iter().map(|c| c.1).collect();
    assert_eq!(positions, vec![50, 51, 52, 53, 54, 55, 56]);
    assert!(cols.iter().all(|c| c.2 == 1));
}

#[test]
fn deletion_and_query_offsets() {
    let r = rec(0, 0, &[(2, 0), (1, 2), (2, 0)], "d");
    let mut p = Pileup::new(vec![Ok(r)]);
    let mut seen = Vec::new();
    while let Some(c) = p.next() {
        let c = c.unwrap();
        let e = &c.entries()[0];
        seen.push((c.ref_pos(), e.query_start(), e.query_end(), e.len(), e.aln_type()));
    }
    assert_eq!(
        seen,
        vec![
            (0, 0, 1, 1, AlnType::Match),
            (1, 1, 2, 1, AlnType::Match),
            (2, 2, 2, 0, AlnType::Deletion),
            (3, 2, 3, 1, AlnType::Match),
            (4, 3, 4, 1, AlnType::Match),
        ]
    );
}

#[test]
fn filter_and_unmapped_records_are_skipped() {
    let a = rec(0, 10, &[(2, 0)], "keep");
    let b = rec(0, 10, &[(2, 0)], "drop");
    let mut c = rec(0, 10, &[(2, 0)], "unmapped");
    c.flag = 4;
    let mut p = Pileup::with_filter(vec![Ok(a), Ok(b), Ok(c)], |r: &Record| r.name != b"drop".to_vec());
    let cols = columns(&mut p);
    assert_eq!(cols, vec![(0, 10, 1), (0, 11, 1)]);
}

#[test]
fn sequence_and_qualities_of_entry() {
    let mut r = rec(0, 7, &[(1, 0), (2, 1), (1, 0)], "s");
    r.sequence = b"ACGT".to_vec();
    r.qualities = vec![10, 20, 30, 40];
    let mut p = Pileup::new(vec![Ok(r)]);
    let c = p.next().unwrap().unwrap();
    let e = &c.entries()[0];
    assert_eq!(e.aln_type(), AlnType::Insertion(2));
    assert_eq!(e.sequence(), Some(b"ACG".to_vec()));
    assert_eq!(e.qualities(), Some(vec![10, 20, 30]));
    let c = p.next().unwrap().unwrap();
    let e = &c.entries()[0];
    assert_eq!(e.sequence(), Some(b"T".to_vec()));
    assert!(p.next().is_none());
}

#[test]
fn record_error_is_passed_on() {
    let a = rec(0, 10, &[(1, 0)], "a");
    let mut p = Pileup::new(vec![Ok(a), Err(Error::Truncated)]);
    let first = p.next().unwrap();
    assert!(matches!(first, Err(Error::Truncated)) || first.is_ok());
    let mut saw_error = matches!(first, Err(Error::Truncated));
    while let Some(c) = p.next() {
        if let Err(e) = c {
            assert_eq!(e, Error::Truncated);
            saw_error = true;
        }
    }
    assert!(saw_error);
}

#[test]
fn record_end_and_aligned_query_end() {
    let r = rec(0, 100, &[(3, 4), (5, 0), (2, 2), (4, 1), (3, 0), (6, 4), (2, 5)], "e");
    assert_eq!(r.calculate_end(), 110);
    assert_eq!(r.aligned_query_end(), 15);
    let only_ins = rec(0, 100, &[(3, 1)], "i");
    assert_eq!(only_ins.calculate_end(), -1);
    assert!(!Record::new().is_mapped());
}

#[test]
fn column_sort_keeps_equal_keys_in_order() {
    let recs = vec![
        Ok(rec(0, 10, &[(5, 0)], "a")),
        Ok(rec(0, 10, &[(6, 0)], "a")),
        Ok(rec(0, 10, &[(7, 0)], "0")),
    ];
    let mut p = Pileup::new(recs);
    let mut col = p.next().unwrap().unwrap();
    let before: Vec<u32> = col
        .entries()
        .iter()
        .filter(|e| e.record().name == b"a".to_vec())
        .map(|e| e.record().cigar[0].len)
        .collect();
    col.sort();
    let names: Vec<Vec<u8>> = col.entries().iter().map(|e| e.record().name.clone()).collect();
    assert_eq!(names, vec![b"0".to_vec(), b"a".to_vec(), b"a".to_vec()]);
    let after: Vec<u32> = col.entries()[1..].iter().map(|e| e.record().cigar[0].len).collect();
    assert_eq!(after, before);
}

#[test]
fn two_record_pileup_has_ten_columns() {
    let a = rec(0, 100, &[(5, 0), (5, 1), (5, 0)], "a");
    let b = rec(0, 100, &[(10, 0)], "b");
    let mut p = Pileup::new(vec![Ok(a), Ok(b)]);
    let cols = columns(&mut p);
    let expected: Vec<(u32, u32, usize)> = (100..110).map(|pos| (0, pos, 2)).collect();
    assert_eq!(cols, expected);
}
