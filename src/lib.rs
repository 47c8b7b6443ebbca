use vstd::prelude::*;

pub mod alignments;
pub mod bam;
pub mod fasta;
pub mod fastq;
pub mod lasttab;
pub mod maf;
pub mod paf;
pub mod sam;
pub mod text;

verus! {

/// Whether a byte is one of the four nucleotide letters, in either case.
pub open spec fn is_nucleotide(b: u8) -> bool {
    b == 65 || b == 97 || b == 67 || b == 99 || b == 71 || b == 103 || b == 84 || b == 116
}

/// The complementary nucleotide, in upper case: `A`/`a` to `T`, `C`/`c` to
/// `G`, `G`/`g` to `C`, `T`/`t` to `A`.
pub open spec fn complement(b: u8) -> u8 {
    if b == 65 || b == 97 {
        84
    } else if b == 67 || b == 99 {
        71
    } else if b == 71 || b == 103 {
        67
    } else {
        65
    }
}

/// The reverse complement of a nucleotide sequence.
pub fn revcmp(seq: &[u8]) -> (r: Vec<u8>)
    requires
        forall|i: int| 0 <= i < seq@.len() ==> is_nucleotide(#[trigger] seq@[i]),
    ensures
        r@ == Seq::new(seq@.len(), |i: int| complement(seq@[seq@.len() - 1 - i])),
{
    let n = seq.len();
    let mut out: Vec<u8> = Vec::new();
    let mut k: usize = 0;
    while k < n
        invariant
            k <= n,
            n == seq@.len(),
            out@ == Seq::new(k as nat, |i: int| complement(seq@[n - 1 - i])),
        decreases n - k,
    {
        let e = seq[n - 1 - k];
        let c: u8 = if e == 65 || e == 97 {
            84
        } else if e == 67 || e == 99 {
            71
        } else if e == 71 || e == 103 {
            67
        } else {
            65
        };
        out.push(c);
        proof {
            assert(out@ =~= Seq::new((k + 1) as nat, |i: int| complement(seq@[n - 1 - i])));
        }
        k = k + 1;
    }
    out
}

} // verus!
