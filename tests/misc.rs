use bio_utils::alignments::edit_dist;
use bio_utils::bam::recover_alignment;
use bio_utils::fasta::parse_records;
use bio_utils::fastq;
use bio_utils::maf;
use bio_utils::paf::PAF;
use bio_utils::revcmp;
use bio_utils::sam::Op::{Align, Deletion, Insertion, SoftClip};

#[test]
fn reconstruct_clipped_alignment() {
    let ops = vec![SoftClip(101), Align(33), Insertion(2), Align(66)];
    let query: Vec<u8> = (0..202).map(|i| b"ACGT"[i % 4]).collect();
    let mut reference: Vec<u8> = query[101..134].to_vec();
    reference.extend_from_slice(&query[136..202]);
    reference[0] = b'T';
    let (q, m, r) = recover_alignment(&ops, &query, &reference, 0);
    assert_eq!(&q[..17], b"[head 00101 base]");
    assert_eq!(&r[..17], b"[head 00000 base]");
    assert_eq!(&m[..17], &[b' '; 17][..]);
    assert_eq!(m.len(), 17 + 33 + 2 + 66 + 17);
    assert_eq!(m[17], b'X');
    assert!(m[18..50].iter().all(|&c| c == b'|'));
    assert_eq!(&m[50..52], b"  ");
    assert!(m[52..118].iter().all(|&c| c == b'|'));
    assert_eq!(&r[50..52], b"--");
    assert_eq!(&q[q.len() - 17..], b"[tail 00000 base]");
    assert_eq!(&r[r.len() - 17..], b"[tail 00000 base]");
    assert_eq!(q.len(), m.len());
    assert_eq!(r.len(), m.len());
}

#[test]
fn reconstruct_deletion() {
    let ops = vec![Align(2), Deletion(2), Align(1)];
    let (q, m, r) = recover_alignment(&ops, b"ACG", b"TTACTTG", 2);
    assert_eq!(q, b"[head 00000 base]AC--G[tail 00000 base]".to_vec());
    assert_eq!(m, b"                 ||  |                 ".to_vec());
    assert_eq!(r, b"[head 00002 base]ACTTG[tail 00000 base]".to_vec());
}

#[test]
fn edit_distance_values() {
    assert_eq!(edit_dist(b"kitten", b"sitting"), 3);
    assert_eq!(edit_dist(b"", b"abc"), 3);
    assert_eq!(edit_dist(b"same", b"same"), 0);
}

#[test]
fn reverse_complement() {
    assert_eq!(revcmp(b"ACGTa"), b"TACGT".to_vec());
    assert_eq!(revcmp(b""), Vec::<u8>::new());
}

#[test]
fn paf_line() {
    let line = "q\t100\t5\t95\t-\tt\t1000\t200\t290\t80\t92\t60\ttp:A:P\tcg:Z:90M\tbad";
    let p = PAF::new(line).unwrap();
    assert_eq!(p.qname, "q");
    assert_eq!(p.qlen, 100);
    assert!(!p.relstrand);
    assert_eq!(p.mapq, 60);
    assert_eq!(p.tags.len(), 2);
    assert_eq!(p.get_tag("cg"), Some(("Z", "90M")));
    assert_eq!(p.get_tag("zz"), None);
    assert_eq!(
        p.to_line(),
        "q\t100\t5\t95\t-\tt\t1000\t200\t290\t80\t92\t60\ttp:A:P\tcg:Z:90M"
    );
    assert!(PAF::new("q\t100\t5").is_none());
    assert!(PAF::new("q\t100\t5\t95\t-\tt\t1000\t200\t290\t80\t92\t70000").is_none());
}

#[test]
fn fasta_text() {
    let recs = parse_records(">a first\nACGT\nAC\r\n>b\nGG\n>c\n>d\nTT\n");
    assert_eq!(recs.len(), 2);
    assert_eq!(recs[0].id(), "a");
    assert_eq!(recs[0].desc(), &Some("first".to_string()));
    assert_eq!(recs[0].seq(), b"ACGTAC");
    assert_eq!(recs[0].len(), 6);
    assert_eq!(recs[1].id(), "b");
    assert_eq!(recs[1].desc(), &None);
    assert_eq!(recs[1].to_text(), ">b\nGG\n");
    assert!(!recs[1].is_empty());
    assert_eq!(parse_records("").len(), 0);
}

#[test]
fn fastq_record() {
    let r = fastq::Record::with_data("read", b"ACGT", b"IIII");
    assert_eq!(r.id(), "read");
    assert_eq!(r.seq(), b"ACGT");
    assert_eq!(r.quality(), b"IIII");
    assert_eq!(r.len(), 4);
    assert!(!r.is_empty());
    assert!(fastq::Record::new().is_empty());
}

#[test]
fn maf_block() {
    let mut rec = maf::Record::new();
    assert!(rec.is_empty());
    assert!(rec.add_line("a score=275.0 pass=2 mode=x"));
    assert!(rec.add_line("s Chr11 1122118 385 + 38115440 ACGT"));
    assert!(rec.add_line("s Ctg0 26518 385 - 106115 AC-T"));
    assert!(rec.add_line("# comment"));
    assert!(!rec.add_line("s Bad 1 2 * 3 AC"));
    assert_eq!(rec.score(), Some("275.0"));
    assert_eq!(rec.pass(), Some(2));
    assert_eq!(rec.other_header().to_vec(), vec![("mode".to_string(), "x".to_string())]);
    assert_eq!(rec.sequence().len(), 2);
    let s = rec.with_query_name("Chr11").unwrap();
    assert_eq!(s.start(), 1122118);
    assert_eq!(s.length(), 385);
    assert_eq!(s.src_size(), 38115440);
    assert!(s.is_forward());
    assert_eq!(s.text(), b"ACGT");
    let t = rec.with_query_name("Ctg0").unwrap();
    assert_eq!(t.strand(), maf::Strand::Reverse);
    assert!(rec.with_query_name("Ctg232").is_none());
    rec.clear();
    assert_eq!(rec.sequence().len(), 2);
    assert_eq!(rec.sequence()[0].name(), "");
    assert!(rec.add_line("s Ctg5 1 2 + 3 AC"));
    assert_eq!(rec.sequence()[0].name(), "Ctg5");
}
