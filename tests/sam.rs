use bio_utils::sam::Op::{Align, Deletion, HardClip, Insertion, Match, Mismatch, Padding, SoftClip};
use bio_utils::sam::{parse_cigar_string, Coverage, Header, Op, Record};

#[test]
fn it_works() {
    assert_eq!(2 + 2, 4);
}

#[test]
fn cigar_parse() {
    let cigar = "101S33M2I66M";
    let processed = parse_cigar_string(cigar);
    println!("{:?}", processed);
    assert_eq!(
        processed,
        vec![SoftClip(101), Align(33), Insertion(2), Align(66)]
    );
}

#[test]
fn cigar_round_trip() {
    let ops = vec![
        HardClip(5),
        Match(12),
        Mismatch(1),
        Deletion(3),
        Insertion(2),
        Op::Skipped(100),
        Padding(4),
        SoftClip(7),
    ];
    let text: String = ops.iter().map(|o| o.as_str()).collect();
    assert_eq!(text, "5H12=1X3D2I100N4P7S");
    assert_eq!(parse_cigar_string(&text), ops);
}

#[test]
fn cigar_unknown_code_is_dropped() {
    assert_eq!(parse_cigar_string("3M4Q5D"), vec![Align(3), Deletion(5)]);
    assert_eq!(parse_cigar_string(""), Vec::<Op>::new());
    assert_eq!(parse_cigar_string("0M3I"), vec![Insertion(3)]);
    assert_eq!(parse_cigar_string("M3I"), vec![Insertion(3)]);
}

#[test]
fn op_new_and_from() {
    assert_eq!(Op::new("33M"), Some(Align(33)));
    assert_eq!(Op::new("+7X"), Some(Mismatch(7)));
    assert_eq!(Op::new("M"), None);
    assert_eq!(Op::new("12Q"), None);
    assert_eq!(Op::new(""), None);
    assert_eq!(Op::from(4, b'='), Some(Match(4)));
    assert_eq!(Op::from(4, b'?'), None);
    assert_eq!(Align(33).as_str(), "33M");
}

fn record(pos: usize, cigar: &str) -> Record {
    let line = format!("r1\t0\tchr1\t{}\t60\t{}\t*\t0\t0\tACGTA\tIIIII\tAS:i:42", pos, cigar);
    Record::from_line(&line).unwrap()
}

#[test]
fn coverage_of_single_match() {
    let cov = record(10, "5M").to_coverage();
    assert_eq!(cov.r_name(), "chr1");
    assert_eq!(cov.cov(), &[(10, 1), (11, 1), (12, 1), (13, 1), (14, 1)]);
}

#[test]
fn coverage_stays_within_reference_span() {
    let rec = record(10, "2S2M3D1I2=1X2N1M");
    let cov = rec.to_coverage();
    assert_eq!(cov.cov(), &[(10, 1), (11, 1), (15, 1), (16, 1), (20, 1)]);
    let (start, end) = rec.refr_aligned_region();
    assert_eq!((start, end), (9, 20));
    for (p, _) in cov.cov() {
        assert!(*p >= 10 && *p < 10 + 11);
    }
}

#[test]
fn coverage_merge_commutes_and_associates() {
    let a = record(10, "5M").to_coverage();
    let b = record(12, "2M2D4M").to_coverage();
    let c = record(1, "20M").to_coverage();
    assert_eq!(a.merge(&b).cov(), b.merge(&a).cov());
    assert_eq!(
        a.merge(&b).merge(&c).cov(),
        a.merge(&b.merge(&c)).cov()
    );
    assert_eq!(
        a.merge(&b).cov(),
        &[(10, 1), (11, 1), (12, 2), (13, 2), (14, 1), (16, 1), (17, 1), (18, 1), (19, 1)]
    );
}

#[test]
fn coverage_new_groups_by_reference() {
    let l1 = "a\t0\tchr2\t3\t60\t2M\t*\t0\t0\tAC\tII\tAS:i:1";
    let l2 = "b\t0\tchr1\t1\t60\t3M\t*\t0\t0\tACG\tIII\tAS:i:1";
    let l3 = "c\t16\tchr2\t4\t60\t2M\t*\t0\t0\tAC\tII\tAS:i:1";
    let records: Vec<Record> = [l1, l2, l3].iter().map(|l| Record::from_line(l).unwrap()).collect();
    let covs = Coverage::new(&records);
    assert_eq!(covs.len(), 2);
    assert_eq!(covs[0].r_name(), "chr1");
    assert_eq!(covs[0].cov(), &[(1, 1), (2, 1), (3, 1)]);
    assert_eq!(covs[1].r_name(), "chr2");
    assert_eq!(covs[1].cov(), &[(3, 1), (4, 2), (5, 1)]);
}

#[test]
fn record_fields_and_regions() {
    let line = "q7\t16\tctg\t100\t30\t3S4M1I2M2H\tctg\t5\t7\tACGTACGTAC\t!!!!!!!!!!\tNM:i:1\tAS:i:-5";
    let rec: Record = line.parse().unwrap();
    assert_eq!(rec.q_name(), "q7");
    assert_eq!(rec.r_name(), "ctg");
    assert_eq!(rec.ref_name(), "ctg");
    assert_eq!(rec.flag(), 16);
    assert!(!rec.is_forward());
    assert!(!rec.is_template());
    assert!(rec.is_primary());
    assert_eq!(rec.mapq(), 30);
    assert_eq!(rec.pos(), 100);
    assert_eq!(rec.seq(), "ACGTACGTAC");
    assert_eq!(rec.attr().to_vec(), vec!["NM:i:1".to_string(), "AS:i:-5".to_string()]);
    assert_eq!(rec.query_aligned_region(), (3, 10));
    assert_eq!(rec.refr_aligned_region(), (99, 105));
    assert_eq!(rec.query_length(), 12);
    assert_eq!(rec.qual_as_str(), "!!!!!!!!!!");
    assert_eq!(rec.to_line(), line);
}

#[test]
fn record_parse_errors() {
    assert!(Record::from_line("too\tfew\tfields").is_err());
    assert!(Record::from_line("r\tx\tchr\t1\t0\t1M\t*\t0\t0\tA\tI\tAS:i:0").is_err());
    assert!(Record::from_line("r\t0\tchr\t1\t0\t1M\t*\t0\t-1\tA\tI\tAS:i:0").is_err());
    assert!(Record::from_line("r\t0\tchr\t1\t0\t1M\t*\t0\t0\tA\t \tAS:i:0").is_err());
    assert!(Record::from_line("r\t0\tchr\t1\t0\t99999999999999999999999M\t*\t0\t0\tA\tI\tAS:i:0").is_err());
    assert!(Record::from_line("r\t0\tchr\t1\t0\t1M\t*\t0\t0\tA\tI").is_err());
}

#[test]
fn header_line() {
    let h = Header::new("@@SQ\tSN:chr1\tLN:1000\tnocolon\tUR:http://x").unwrap();
    assert_eq!(h.tag, "SQ");
    assert_eq!(
        h.attrs,
        vec![
            ("SN".to_string(), "chr1".to_string()),
            ("LN".to_string(), "1000".to_string()),
            ("UR".to_string(), "http://x".to_string())
        ]
    );
}

#[test]
fn unmapped_record_gives_no_coverage() {
    let rec = record(0, "5M");
    let cov = rec.to_coverage();
    assert_eq!(cov.r_name(), "chr1");
    assert!(cov.cov().is_empty());
    let mapped = record(3, "2M");
    let covs = Coverage::new(&[rec, mapped]);
    assert_eq!(covs.len(), 1);
    assert_eq!(covs[0].cov(), &[(3, 1), (4, 1)]);
}

#[test]
fn clones_keep_contents() {
    let rec = record(7, "3M");
    let copy = rec.clone();
    assert_eq!(copy.to_line(), rec.to_line());
    let cov = rec.to_coverage();
    assert_eq!(cov.clone().cov(), cov.cov());
    assert_eq!(cov.clone().r_name(), "chr1");
}
