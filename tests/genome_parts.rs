use hic_matrix::cigar::{Cigar, CigarError, Class, Operation};
use hic_matrix::convertor::{calc_dist, get_alignment_pos, get_ordered_alignments, is_opposite_pair, AlignmentSummary, is_duplicated_copies, update_records_wrt_first, ConverterStat, DupRecord, MaxInRowFinder, PairType};
use hic_matrix::gfa::{Orientation, RecordType};
use hic_matrix::sequence::{nt_to_raw, Sequence, UnexpectedNucleotide};

#[test]
fn operation_symbols_round_trip() {
    for &(sym, op) in &[(b'M', Operation::AlnMatch), (b'I', Operation::Insertion), (b'D', Operation::Deletion),
        (b'N', Operation::Skip), (b'S', Operation::Soft), (b'H', Operation::Hard), (b'P', Operation::Padding),
        (b'=', Operation::SeqMatch), (b'X', Operation::SeqMismatch)] {
        assert_eq!(Operation::from_symbol(sym), Ok(op));
        assert_eq!(op.to_byte(), sym);
        assert_eq!(Operation::from_code(op.to_code()), op);
    }
    assert_eq!(Operation::from_symbol(b'Q'), Err(CigarError::UnexpectedOperation(b'Q')));
}

#[test]
fn operation_classes() {
    assert_eq!(Operation::Soft.class(), Class::Insertion);
    assert_eq!(Operation::Skip.class(), Class::Deletion);
    assert_eq!(Operation::Padding.class(), Class::Hard);
    assert_eq!(Operation::SeqMismatch.class(), Class::Match);
    assert!(Operation::AlnMatch.consumes_query() && Operation::AlnMatch.consumes_ref());
    assert!(Operation::Insertion.consumes_query() && !Operation::Insertion.consumes_ref());
    assert!(!Operation::Deletion.consumes_query() && Operation::Deletion.consumes_ref());
    assert!(!Operation::Hard.consumes_query() && !Operation::Hard.consumes_ref());
    assert!(Operation::SeqMatch.is_match() && Operation::Soft.is_insertion());
    assert!(Operation::Skip.is_deletion() && Operation::Hard.is_hard_clipping());
    assert!(!Operation::AlnMatch.is_hard_clipping());
}

#[test]
fn cigar_from_text_and_lengths() {
    let mut c = Cigar::new();
    assert_eq!(c.extend_from_text(b"5H3S10M2I4D1N6M7S"), Ok(()));
    assert_eq!(c.len(), 8);
    assert!(!c.is_empty());
    assert_eq!(c.at(0), (5, Operation::Hard));
    assert_eq!(c.at(2), (10, Operation::AlnMatch));
    assert_eq!(c.raw()[2], 10 << 4);
    assert_eq!(c.calculate_ref_len(), 10 + 4 + 1 + 6);
    assert_eq!(c.calculate_query_len(), 3 + 10 + 2 + 6 + 7);
    assert_eq!(c.hard_clipping(true), 5);
    assert_eq!(c.hard_clipping(false), 0);
    assert_eq!(c.soft_clipping(true), 3);
    assert_eq!(c.soft_clipping(false), 7);
    let ops = c.to_ops();
    assert_eq!(ops[3], (2, Operation::Insertion));
}

#[test]
fn cigar_text_errors_keep_prefix() {
    let mut c = Cigar::new();
    assert_eq!(c.extend_from_text(b"3M0I"), Err(CigarError::ZeroLength));
    assert_eq!(c.len(), 1);
    let mut c = Cigar::new();
    assert_eq!(c.extend_from_text(b"3M4Q"), Err(CigarError::UnexpectedOperation(b'Q')));
    assert_eq!(c.raw(), &[3 << 4]);
    let mut c = Cigar::new();
    assert_eq!(c.extend_from_text(b"999999999M"), Err(CigarError::LengthOverflow));
    assert!(c.is_empty());
}

#[test]
fn cigar_push_iter_and_clear() {
    let mut c = Cigar::from_raw(&[(4 << 4) | 5]);
    c.push(0, Operation::AlnMatch);
    assert_eq!(c.len(), 1);
    c.push(12, Operation::SeqMatch);
    c.extend_from_raw(vec![(2 << 4) | 5]);
    assert_eq!(c.raw(), &[(4 << 4) | 5, (12 << 4) | 7, (2 << 4) | 5]);
    assert_eq!(c.hard_clipping(false), 2);
    let mut it = c.iter();
    assert_eq!(it.remaining(), 3);
    assert_eq!(it.next(), Some((4, Operation::Hard)));
    assert_eq!(it.next_back(), Some((2, Operation::Hard)));
    assert_eq!(it.next(), Some((12, Operation::SeqMatch)));
    assert_eq!(it.next(), None);
    assert_eq!(it.next_back(), None);
    c.shrink_to_fit();
    assert_eq!(c.len(), 3);
    c.clear();
    assert!(c.is_empty());
}

#[test]
fn nucleotides_to_codes() {
    assert_eq!(nt_to_raw(b'T'), Ok(8));
    assert_eq!(nt_to_raw(b't'), Ok(8));
    assert_eq!(nt_to_raw(b'='), Ok(0));
    assert_eq!(nt_to_raw(b'n'), Ok(15));
    assert_eq!(nt_to_raw(b'Z'), Err(UnexpectedNucleotide(b'Z')));
}

#[test]
fn sequence_packing_and_views() {
    let s = Sequence::from_text(b"ACGTNmr").unwrap();
    assert_eq!(s.len(), 7);
    assert!(s.available());
    assert_eq!(s.raw(), &[0x12, 0x48, 0xf3, 0x50]);
    assert_eq!(s.to_vec(), b"ACGTNMR".to_vec());
    assert_eq!(s.to_vec_acgtn_only(), b"ACGTNNN".to_vec());
    assert_eq!(s.at(2), b'G');
    assert_eq!(s.at_acgtn_only(5), b'N');
    assert_eq!(s.compl_at(0), b'T');
    assert_eq!(s.compl_at(5), b'K');
    assert_eq!(s.compl_at_acgtn_only(5), b'N');
    assert_eq!(s.subseq(1, 4), b"CGT".to_vec());
    assert_eq!(s.subseq_acgtn_only(4, 7), b"NNN".to_vec());
    assert_eq!(s.rev_compl(0, 4), b"ACGT".to_vec());
    assert_eq!(s.rev_compl(4, 7), b"YKN".to_vec());
    assert_eq!(s.rev_compl_acgtn_only(3, 7), b"NNNA".to_vec());
    assert_eq!(s.write_readable(), b"ACGTNMR".to_vec());
}

#[test]
fn sequence_errors_and_empty() {
    let mut s = Sequence::new();
    assert!(!s.available());
    assert_eq!(s.write_readable(), b"*".to_vec());
    assert_eq!(s.extend_from_text(b"AC!G"), Err(UnexpectedNucleotide(b'!')));
    assert_eq!(s.to_vec(), b"AC".to_vec());
    assert_eq!(s.push(b'g'), Ok(()));
    assert_eq!(s.to_vec(), b"ACG".to_vec());
    s.shrink_to_fit();
    assert_eq!(s.len(), 3);
    s.clear();
    assert_eq!(s.len(), 0);
    assert!(Sequence::from_text(b"AXA").is_err());
}

#[test]
fn orientations_and_record_types() {
    assert_eq!(Orientation::from_raw(b"+"), Some(Orientation::Forward));
    assert_eq!(Orientation::from_raw(b"-"), Some(Orientation::Reverse));
    assert_eq!(Orientation::from_raw(b"+-"), None);
    assert_eq!(Orientation::inverse(&Orientation::Forward), Orientation::Reverse);
    assert_eq!(Orientation::Reverse.symbol(), b'-');
    assert_eq!(RecordType::from_raw(b"S"), Some(RecordType::Sequence));
    assert_eq!(RecordType::from_raw(b"#"), Some(RecordType::Comment));
    assert_eq!(RecordType::from_raw(b"L"), Some(RecordType::Link));
    assert_eq!(RecordType::from_raw(b"X"), None);
    assert_eq!(RecordType::from_raw(b"SS"), None);
}

#[test]
fn converter_statistics() {
    let mut st = ConverterStat::new();
    st.update_read_count();
    st.update_align_count();
    st.update_align_count();
    st.update_pair_count(PairType::UD, 5);
    st.update_pair_count(PairType::UU, 1);
    assert_eq!(st.read_counter, 1);
    assert_eq!(st.alignment_counter, 2);
    assert_eq!(st.uw_pair_counter, 5);
    assert_eq!(st.uu_pair_counter, 1);
    assert_eq!(st.ww_pair_counter, 0);
    let f = MaxInRowFinder::new(100_000, 7);
    assert_eq!(f.length_cutoff, 100_000);
    assert_eq!(f.chunksize, 7);
}

fn rec(p1: i64, p2: i64, s1: char) -> DupRecord {
    DupRecord { read_name: "r".to_string(), name1: "a".to_string(), pos1: p1, name2: "b".to_string(), pos2: p2, strand1: s1, strand2: '+' }
}

#[test]
fn duplicate_detection() {
    assert!(is_duplicated_copies(&rec(100, 200, '+'), &rec(103, 198, '+'), 3));
    assert!(!is_duplicated_copies(&rec(100, 200, '+'), &rec(104, 200, '+'), 3));
    assert!(!is_duplicated_copies(&rec(100, 204, '+'), &rec(100, 200, '+'), 3));
    assert!(!is_duplicated_copies(&rec(100, 200, '-'), &rec(100, 200, '+'), 3));
    let recs = vec![(rec(100, 200, '+'), false), (rec(101, 200, '+'), false), (rec(150, 200, '+'), false)];
    let out = update_records_wrt_first(recs);
    assert_eq!(out.iter().map(|x| x.1).collect::<Vec<_>>(), vec![false, true, false]);
    let recs = vec![(rec(100, 200, '+'), true), (rec(101, 200, '+'), false)];
    assert_eq!(update_records_wrt_first(recs)[1].1, false);
}

#[test]
fn cigar_aligned_and_matching_pairs() {
    let mut c = Cigar::new();
    c.extend_from_text(b"1H2S3M1D2I1P").unwrap();
    let aligned = c.aligned_pairs(100);
    assert_eq!(
        aligned,
        vec![
            (Some(0), None), (Some(1), None),
            (Some(2), Some(100)), (Some(3), Some(101)), (Some(4), Some(102)),
            (None, Some(103)),
            (Some(5), None), (Some(6), None),
        ]
    );
    let mut c = Cigar::new();
    c.extend_from_text(b"2M1I2=3D1X").unwrap();
    assert_eq!(c.matching_pairs(10), vec![(0, 10), (1, 11), (3, 12), (4, 13), (5, 17)]);
}

#[test]
fn cigar_readable_text() {
    let mut c = Cigar::new();
    assert_eq!(c.write_readable(), b"*".to_vec());
    c.extend_from_text(b"150M12I3D1000X").unwrap();
    assert_eq!(c.write_readable(), b"150M12I3D1000X".to_vec());
}

fn aln(ref_id: i32, start: i32, end: i32, reverse: bool) -> AlignmentSummary {
    AlignmentSummary { ref_id, start, end, reverse, mapped: true, secondary: false, supplementary: false, mapq: 30 }
}

#[test]
fn alignment_geometry() {
    let a = aln(1, 100, 151, false);
    let b = aln(1, 300, 400, true);
    assert_eq!(get_alignment_pos(&a), 125);
    assert_eq!(get_alignment_pos(&b), 350);
    assert_eq!(calc_dist(&a, &b), 225);
    assert_eq!(calc_dist(&b, &a), 225);
    assert_eq!(calc_dist(&a, &aln(2, 0, 10, false)), u64::MAX);
    assert!(is_opposite_pair(&a, &b));
    assert!(is_opposite_pair(&b, &a));
    assert!(!is_opposite_pair(&aln(1, 300, 400, false), &aln(1, 100, 151, true)));
    assert!(!is_opposite_pair(&a, &aln(1, 300, 400, false)));
    assert_eq!(get_ordered_alignments(&b, &a), (a, b));
    let c = aln(0, 900, 950, false);
    assert_eq!(get_ordered_alignments(&a, &c), (c, a));
}

#[test]
fn alignment_statistics() {
    let mut st = ConverterStat::new();
    let mut sec = aln(0, 0, 1, false);
    sec.secondary = true;
    let mut supp = aln(0, 0, 1, false);
    supp.supplementary = true;
    st.update_alignment_count(&vec![sec, supp, aln(0, 0, 1, false), aln(0, 0, 1, false)]);
    assert_eq!((st.sec_counter, st.supp_counter, st.prime_counter), (1, 1, 2));
    let mut unm = aln(0, 0, 1, false);
    unm.mapped = false;
    unm.mapq = 0;
    st.update_mapping_count(&unm, &unm);
    st.update_mapping_count(&unm, &supp);
    st.update_mapping_count(&supp, &supp);
    assert_eq!((st.nn_counter, st.nm_counter, st.mm_counter), (1, 1, 1));
    st.update_mapq_count(&unm, &unm);
    st.update_mapq_count(&unm, &supp);
    st.update_mapq_count(&supp, &supp);
    st.update_mapq_count(&supp, &sec);
    assert_eq!((st.mq00_counter, st.mq01_counter, st.mq11_counter), (1, 1, 2));
}

#[test]
fn acgtn_views_hold_only_acgtn() {
    let s = Sequence::from_text(b"=ACMGRSVTWYHKDBN").unwrap();
    assert_eq!(s.to_vec_acgtn_only(), b"NACNGNNNTNNNNNNN".to_vec());
    assert!(s.rev_compl_acgtn_only(0, 16).iter().all(|b| b"ACGTN".contains(b)));
    assert_eq!(s.compl_at(3), b'K');
    assert_eq!(s.at_acgtn_only(8), b'T');
}
