use bio_utils::lasttab::Op::{Match, Seq1In, Seq2In};
use bio_utils::lasttab::{try_from, LastTAB, Op, Strand};
use bio_utils::sam::Record;
use std::collections::HashMap;

const LAST_INPUT: &str = "1035\ttig00000001\t98045\t539\t+\t261026\tm54113_160913_184949/5570667/0_1125\t4\t527\t-\t1125\t10,1:0,5,1:0,3,1:0,5,0:1,3\tEG2=8.2e-86\tE=6.6e-95";

#[test]
fn last_parse_test() {
    println!("Start");
    let aln = LastTAB::from_line(LAST_INPUT).unwrap();
    assert_eq!(aln.score(), 1035);
    assert_eq!(aln.seq1_name(), "tig00000001");
    assert_eq!(aln.seq1_start(), 98045);
    assert_eq!(aln.seq1_matchlen(), 539);
    assert_eq!(aln.seq1_direction(), Strand::Forward);
    assert_eq!(aln.seq1_len(), 261026);
    assert_eq!(aln.seq2_name(), "m54113_160913_184949/5570667/0_1125");
    assert_eq!(aln.seq2_start(), 4);
    assert_eq!(aln.seq2_matchlen(), 527);
    assert_eq!(aln.seq2_direction(), Strand::Reverse);
    assert_eq!(aln.seq2_len(), 1125);
    assert_eq!(
        aln.alignment(),
        vec![
            Match(10),
            Seq2In(1),
            Match(5),
            Seq2In(1),
            Match(3),
            Seq2In(1),
            Match(5),
            Seq1In(1),
            Match(3)
        ]
    );
    assert_eq!(aln.e_score().parse::<f64>().unwrap(), 6.6e-95);
    assert_eq!(aln.eg2_score().parse::<f64>().unwrap(), 8.2e-86);
    assert_eq!(aln.seq1_start_from_forward(), 98045);
    assert_eq!(aln.seq1_end_from_forward(), 98045 + 539);
    assert_eq!(aln.seq2_start_from_forward(), 1125 - 527 - 4);
    assert_eq!(aln.seq2_end_from_forward(), 1125 - 4);
}

#[test]
fn alignment_length_sums_all_ops() {
    let aln = LastTAB::from_line(LAST_INPUT).unwrap();
    assert_eq!(aln.alignment_length(), 30);
}

#[test]
fn reverse_projection_example() {
    let aln = LastTAB::from_line(LAST_INPUT).unwrap();
    assert_eq!(aln.seq2_start_from_forward(), 594);
    assert_eq!(aln.seq2_end_from_forward(), 1121);
    assert_eq!(aln.seq2_start_from_forward() + aln.seq2_matchlen(), 1125 - 4);
}

#[test]
fn last_line_round_trip() {
    let aln = LastTAB::from_line(LAST_INPUT).unwrap();
    assert_eq!(aln.to_line(), LAST_INPUT);
}

#[test]
fn last_line_defaults_and_errors() {
    let short = "7\ta\t0\t3\t+\t10\tb\t1\t3\t-\t5\t3";
    let aln = LastTAB::from_line(short).unwrap();
    assert_eq!(aln.eg2_score(), "2");
    assert_eq!(aln.e_score(), "3");
    assert!(LastTAB::from_line("7\ta\t0\t3\t+\t10\tb\t1\t3\t-\t5").is_none());
    assert!(LastTAB::from_line("x\ta\t0\t3\t+\t10\tb\t1\t3\t-\t5\t3").is_none());
    assert!(LastTAB::from_line("7\ta\t8\t3\t+\t10\tb\t1\t3\t-\t5\t3").is_none());
    assert!(LastTAB::from_line("7\ta\t0\t3\t+\t10\tb\t1\t3\t-\t5\t3,z:1").is_none());
}

#[test]
fn last_equality_is_symmetric_in_sides() {
    let a = LastTAB::from_line("1\tx\t2\t3\t+\t10\ty\t4\t3\t-\t20\t3").unwrap();
    let b = LastTAB::from_line("9\ty\t13\t3\t+\t20\tx\t2\t3\t+\t10\t3").unwrap();
    let c = LastTAB::from_line("9\ty\t14\t3\t+\t20\tx\t2\t3\t+\t10\t3").unwrap();
    assert!(a == b);
    assert!(a != c);
}

fn lengths() -> HashMap<String, usize> {
    let mut m = HashMap::new();
    m.insert("chr1".to_string(), 1000);
    m
}

#[test]
fn convert_sam_record() {
    let rec = Record::from_line("read1\t16\tchr1\t11\t60\t5S10M2I3M1D4M3H\t*\t0\t0\tA\tI\tNM:i:3\tAS:i:37").unwrap();
    let lt = try_from(&rec, &lengths()).unwrap();
    assert_eq!(lt.score(), 37);
    assert_eq!(lt.seq1_name(), "chr1");
    assert_eq!(lt.seq1_start(), 10);
    assert_eq!(lt.seq1_matchlen(), 18);
    assert_eq!(lt.seq1_direction(), Strand::Forward);
    assert_eq!(lt.seq1_len(), 1000);
    assert_eq!(lt.seq2_name(), "read1");
    assert_eq!(lt.seq2_start(), 5);
    assert_eq!(lt.seq2_matchlen(), 19);
    assert_eq!(lt.seq2_direction(), Strand::Reverse);
    assert_eq!(lt.seq2_len(), 27);
    assert_eq!(
        lt.alignment(),
        &[Op::Match(10), Op::Seq1In(2), Op::Match(3), Op::Seq2In(1), Op::Match(4)]
    );
    assert_eq!(lt.e_score(), "0");
}

#[test]
fn convert_clamps_negative_score() {
    let rec = Record::from_line("r\t0\tchr1\t1\t60\t4M\t*\t0\t0\tA\tI\tAS:i:-12").unwrap();
    let lt = try_from(&rec, &lengths()).unwrap();
    assert_eq!(lt.score(), 0);
    assert_eq!(lt.seq2_direction(), Strand::Forward);
}

#[test]
fn convert_rejects_unmapped() {
    let rec = Record::from_line("r\t4\tchr1\t0\t0\t4M\t*\t0\t0\tA\tI\tAS:i:5").unwrap();
    assert!(try_from(&rec, &lengths()).is_err());
}

#[test]
fn convert_errors() {
    let no_tag = Record::from_line("r\t0\tchr1\t1\t60\t4M\t*\t0\t0\tA\tI\tNM:i:0").unwrap();
    assert!(try_from(&no_tag, &lengths()).is_err());
    let skipped = Record::from_line("r\t0\tchr1\t1\t60\t4M5N4M\t*\t0\t0\tA\tI\tAS:i:5").unwrap();
    assert_eq!(try_from(&skipped, &lengths()).unwrap_err(), "Skipped in Cigar.");
    let padded = Record::from_line("r\t0\tchr1\t1\t60\t4M1P4M\t*\t0\t0\tA\tI\tAS:i:5").unwrap();
    assert_eq!(try_from(&padded, &lengths()).unwrap_err(), "Padding in Cigar.");
    let unknown = Record::from_line("r\t0\tchrX\t1\t60\t4M\t*\t0\t0\tA\tI\tAS:i:5").unwrap();
    assert_eq!(try_from(&unknown, &lengths()).unwrap_err(), "Invalid Reference Name");
    let past_end = Record::from_line("r\t0\tchr1\t998\t60\t4M\t*\t0\t0\tA\tI\tAS:i:5").unwrap();
    assert!(try_from(&past_end, &lengths()).is_err());
}
