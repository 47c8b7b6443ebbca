//! LastTAB is a struct to represent an alignment record produced by `last` program.
use vstd::prelude::*;
use std::collections::HashMap;
use crate::sam::{decode_cigar, query_len, ref_len, string_views, Op as SamOp, Record, RecordView};
use crate::text::{
    decimal, bounded_text, chars_of, has_prefix, i64_text, str_eq, parse_i64, parse_u64, parse_usize, push_decimal, split_chars,
    split_on, string_of, suffix_string, vec_views,
};

verus! {

/// The direction of the alignment.
#[derive(Debug, Clone, Copy, PartialEq, Eq, Hash, Structural)]
pub enum Strand {
    /// The strand is forward.
    Forward,
    /// The strand is reverse. So is the alignment coordinate.
    /// For example, if the length of sequence is 90, the start position is 10,
    /// the length of the alignment is 30,
    /// and the direction is `Strand::Reverse`, then the start position
    /// with respect to forward strand is 90 - 10 - 30.
    Reverse,
}

impl Strand {
    pub fn is_forward(self) -> (r: bool)
        ensures
            r == (self == Strand::Forward),
    {
        match self {
            Strand::Forward => true,
            Strand::Reverse => false,
        }
    }

    /// `+` for forward, `-` for reverse.
    pub fn symbol(self) -> (r: char)
        ensures
            r == strand_symbol(self),
    {
        match self {
            Strand::Forward => '+',
            Strand::Reverse => '-',
        }
    }
}

pub open spec fn strand_symbol(s: Strand) -> char {
    match s {
        Strand::Forward => '+',
        Strand::Reverse => '-',
    }
}

/// The strand that a symbol field stands for: `+` is forward, anything else
/// reverse.
pub open spec fn strand_of(f: Seq<char>) -> Strand {
    if f == seq!['+'] {
        Strand::Forward
    } else {
        Strand::Reverse
    }
}

/// One side of a pairwise alignment, as the contracts speak of it.
pub ghost struct AlignInfoView {
    pub name: Seq<char>,
    pub start: usize,
    pub matchlen: usize,
    pub strand: Strand,
    pub len: usize,
}

impl AlignInfoView {
    /// The aligned region lies within the sequence.
    pub open spec fn wf(self) -> bool {
        self.start + self.matchlen <= self.len
    }

    /// The start of the aligned region counted on the forward strand.
    pub open spec fn start_from_forward(self) -> int {
        match self.strand {
            Strand::Forward => self.start as int,
            Strand::Reverse => self.len - self.matchlen - self.start,
        }
    }

    pub open spec fn end_from_forward(self) -> int {
        self.start_from_forward() + self.matchlen
    }
}

/// This is the information of alignment for a single strand.
/// Usually, a TAB-formatted alignment is losslessly represented by two `AlignInfo`
/// , an alignment pattern, and scores.
#[derive(Debug)]
pub struct AlignInfo {
    /// The name of the sequence.
    seqname: String,
    /// The start position of the alignment. 0-based.
    /// If the direction is reverse, then the
    /// start position is the position at the reverse complement.
    seqstart: usize,
    /// The number of based mathed. In other words,
    /// the alignment region is [seqstart..seqstart+matchlen).
    matchlen: usize,
    /// The direction of the alignment.
    direction: Strand,
    /// The length of the sequence.
    seqlen: usize,
}

impl View for AlignInfo {
    type V = AlignInfoView;

    closed spec fn view(&self) -> AlignInfoView {
        AlignInfoView {
            name: self.seqname@,
            start: self.seqstart,
            matchlen: self.matchlen,
            strand: self.direction,
            len: self.seqlen,
        }
    }
}

/// The side that five fields (name, start, match length, strand, length) make,
/// if the numbers read and the aligned region lies within the sequence.
pub open spec fn align_info_of(f: Seq<Seq<char>>) -> Option<AlignInfoView> {
    let start = bounded_text(f[1], usize::MAX as nat);
    let matchlen = bounded_text(f[2], usize::MAX as nat);
    let len = bounded_text(f[4], usize::MAX as nat);
    if start is Some && matchlen is Some && len is Some && start->0 + matchlen->0 <= len->0 {
        Some(
            AlignInfoView {
                name: f[0],
                start: start->0 as usize,
                matchlen: matchlen->0 as usize,
                strand: strand_of(f[3]),
                len: len->0 as usize,
            },
        )
    } else {
        None
    }
}

impl Clone for AlignInfo {
    fn clone(&self) -> (r: Self)
        ensures
            r@ == self@,
    {
        proof {
            use_type_invariant(self);
        }
        AlignInfo {
            seqname: self.seqname.clone(),
            seqstart: self.seqstart,
            matchlen: self.matchlen,
            direction: self.direction,
            seqlen: self.seqlen,
        }
    }
}

impl AlignInfo {
    #[verifier::type_invariant]
    spec fn inv(&self) -> bool {
        self@.wf()
    }

    /// Reads a side from the five fields `f[at..at + 5]`.
    fn from_splits(f: &Vec<Vec<char>>, at: usize) -> (r: Option<Self>)
        requires
            at + 5 <= f@.len(),
        ensures
            match r {
                Some(a) => align_info_of(vec_views(f@.subrange(at as int, at + 5))) == Some(a@),
                None => align_info_of(vec_views(f@.subrange(at as int, at + 5))) is None,
            },
    {
        let ghost fs = vec_views(f@.subrange(at as int, at + 5));
        let n = f.len();
        assert(at + 5 <= n);
        proof {
            assert(fs[0] == f@[at as int]@);
            assert(fs[1] == f@[at + 1]@);
            assert(fs[2] == f@[at + 2]@);
            assert(fs[3] == f@[at + 3]@);
            assert(fs[4] == f@[at + 4]@);
        }
        let seqstart = match parse_usize(f[at + 1].as_slice()) {
            Some(v) => v,
            None => return None,
        };
        let matchlen = match parse_usize(f[at + 2].as_slice()) {
            Some(v) => v,
            None => return None,
        };
        let seqlen = match parse_usize(f[at + 4].as_slice()) {
            Some(v) => v,
            None => return None,
        };
        let sym = &f[at + 3];
        let direction = if sym.len() == 1 && sym[0] == '+' {
            proof {
                assert(sym@ =~= seq!['+']);
            }
            Strand::Forward
        } else {
            proof {
                if sym@ == seq!['+'] {
                    assert(sym@.len() == 1);
                }
            }
            Strand::Reverse
        };
        if seqstart > seqlen || matchlen > seqlen - seqstart {
            return None;
        }
        Some(
            AlignInfo {
                seqname: string_of(f[at].as_slice()),
                seqstart,
                matchlen,
                direction,
                seqlen,
            },
        )
    }

    /// A side from its parts; none where the aligned region would run past
    /// the sequence's end.
    pub fn new(name: &str, start: usize, matchlen: usize, strand: Strand, len: usize) -> (r: Option<
        Self,
    >)
        ensures
            match r {
                Some(a) => a@ == (AlignInfoView { name: name@, start, matchlen, strand, len }),
                None => start + matchlen > len,
            },
    {
        if start > len || matchlen > len - start {
            return None;
        }
        Some(
            AlignInfo {
                seqname: string_of(chars_of(name).as_slice()),
                seqstart: start,
                matchlen,
                direction: strand,
                seqlen: len,
            },
        )
    }

    /// The start counted on the forward strand: the start itself on the
    /// forward strand, `seqlen - matchlen - seqstart` on the reverse one.
    pub fn seqstart_from_forward(&self) -> (r: usize)
        ensures
            r == self@.start_from_forward(),
            r + self@.matchlen <= self@.len,
    {
        proof {
            use_type_invariant(self);
        }
        match self.direction {
            Strand::Forward => self.seqstart,
            Strand::Reverse => self.seqlen - self.matchlen - self.seqstart,
        }
    }

    pub fn name(&self) -> (r: &str)
        ensures
            r@ == self@.name,
    {
        self.seqname.as_str()
    }

    pub fn start(&self) -> (r: usize)
        ensures
            r == self@.start,
    {
        self.seqstart
    }

    pub fn matchlen(&self) -> (r: usize)
        ensures
            r == self@.matchlen,
    {
        self.matchlen
    }

    pub fn direction(&self) -> (r: Strand)
        ensures
            r == self@.strand,
    {
        self.direction
    }

    pub fn len(&self) -> (r: usize)
        ensures
            r == self@.len,
    {
        self.seqlen
    }

    /// The five fields, tab-separated, in their stored order.
    pub fn push_text(&self, out: &mut Vec<char>)
        ensures
            final(out)@ == old(out)@ + side_text(self@),
    {
        crate::text::push_str(out, self.seqname.as_str());
        out.push('\t');
        push_decimal(out, self.seqstart as u64);
        out.push('\t');
        push_decimal(out, self.matchlen as u64);
        out.push('\t');
        out.push(self.direction.symbol());
        out.push('\t');
        push_decimal(out, self.seqlen as u64);
        proof {
            assert(final(out)@ =~= old(out)@ + side_text(self@));
        }
    }
}

/// On the reverse strand the forward start and the stored start add up with
/// the match length to the sequence length.
pub proof fn lemma_reverse_projection(a: AlignInfoView)
    requires
        a.wf(),
        a.strand == Strand::Reverse,
    ensures
        a.start_from_forward() + a.matchlen == a.len - a.start,
        a.end_from_forward() == a.len - a.start,
        0 <= a.start_from_forward(),
        a.end_from_forward() <= a.len,
{
}


/// One operation of a pairwise alignment.
#[derive(Debug, Clone, Copy, PartialEq, Eq, Hash, Structural)]
pub enum Op {
    /// Match of `usize` length.
    Match(usize),
    /// Sequence insertion of `usize` length to the seq1.
    /// In other words, if we encounter Seq1In(l), the location of the
    /// sequence 2 would increase by l.
    Seq1In(usize),
    /// Sequence insertion with `usize` length to the seq2.
    /// In other words, if we encounter Seq2In(l), the location of the
    /// sequence 1 would increase by l.
    Seq2In(usize),
}

impl Op {
    pub open spec fn len(self) -> usize {
        match self {
            Op::Match(l) => l,
            Op::Seq1In(l) => l,
            Op::Seq2In(l) => l,
        }
    }

    /// The token of one operation: `l` for a match, `0:l` for an insertion to
    /// seq1, `l:0` for one to seq2.
    pub open spec fn text(self) -> Seq<char> {
        match self {
            Op::Match(l) => decimal(l as nat),
            Op::Seq1In(l) => seq!['0', ':'] + decimal(l as nat),
            Op::Seq2In(l) => decimal(l as nat) + seq![':', '0'],
        }
    }

    /// Appends the token of this operation.
    pub fn push_text(&self, out: &mut Vec<char>)
        ensures
            final(out)@ == old(out)@ + self.text(),
    {
        match self {
            Op::Match(l) => {
                push_decimal(out, *l as u64);
            },
            Op::Seq1In(l) => {
                out.push('0');
                out.push(':');
                push_decimal(out, *l as u64);
            },
            Op::Seq2In(l) => {
                push_decimal(out, *l as u64);
                out.push(':');
                out.push('0');
            },
        }
        proof {
            assert(final(out)@ =~= old(out)@ + self.text());
        }
    }

    /// Reads one comma-separated token and appends what it stands for: a bare
    /// number is a match run; `a:b` is `a` bases inserted to seq2 then `b`
    /// bases inserted to seq1, a zero half giving nothing. False, with `res`
    /// unchanged, where a number does not read.
    fn from_string(res: &mut Vec<Op>, input: &[char]) -> (ok: bool)
        ensures
            match token_ops(input@) {
                Some(ops) => ok && final(res)@ == old(res)@ + ops,
                None => !ok && final(res)@ == old(res)@,
            },
    {
        let parts = split_chars(input, ':');
        if parts.len() > 1 {
            let seq1 = match parse_usize(parts[0].as_slice()) {
                Some(v) => v,
                None => return false,
            };
            let seq2 = match parse_usize(parts[1].as_slice()) {
                Some(v) => v,
                None => return false,
            };
            if seq1 != 0 {
                res.push(Op::Seq2In(seq1));
            }
            if seq2 != 0 {
                res.push(Op::Seq1In(seq2));
            }
            proof {
                let a = if seq1 != 0 {
                    seq![Op::Seq2In(seq1)]
                } else {
                    Seq::<Op>::empty()
                };
                let b = if seq2 != 0 {
                    seq![Op::Seq1In(seq2)]
                } else {
                    Seq::<Op>::empty()
                };
                assert(final(res)@ =~= old(res)@ + (a + b));
            }
            true
        } else {
            match parse_usize(input) {
                Some(v) => {
                    res.push(Op::Match(v));
                    true
                },
                None => false,
            }
        }
    }
}

/// What one token of the alignment column stands for.
pub open spec fn token_ops(t: Seq<char>) -> Option<Seq<Op>> {
    let parts = split_on(t, ':');
    if parts.len() > 1 {
        let a = bounded_text(parts[0], usize::MAX as nat);
        let b = bounded_text(parts[1], usize::MAX as nat);
        if a is Some && b is Some {
            Some(
                (if a->0 != 0 {
                    seq![Op::Seq2In(a->0 as usize)]
                } else {
                    Seq::empty()
                }) + (if b->0 != 0 {
                    seq![Op::Seq1In(b->0 as usize)]
                } else {
                    Seq::empty()
                }),
            )
        } else {
            None
        }
    } else {
        match bounded_text(t, usize::MAX as nat) {
            Some(v) => Some(seq![Op::Match(v as usize)]),
            None => None,
        }
    }
}

/// What a sequence of tokens stands for, where every token reads.
pub open spec fn tokens_ops(ts: Seq<Seq<char>>) -> Option<Seq<Op>>
    decreases ts.len(),
{
    if ts.len() == 0 {
        Some(Seq::empty())
    } else {
        match (tokens_ops(ts.drop_last()), token_ops(ts.last())) {
            (Some(a), Some(b)) => Some(a + b),
            _ => None,
        }
    }
}

/// The tokens of a sequence of operations joined by commas.
pub open spec fn ops_text(ops: Seq<Op>) -> Seq<char>
    decreases ops.len(),
{
    if ops.len() == 0 {
        Seq::empty()
    } else if ops.len() == 1 {
        ops[0].text()
    } else {
        ops_text(ops.drop_last()) + seq![','] + ops.last().text()
    }
}

/// The sum of the operation lengths.
pub open spec fn ops_length(ops: Seq<Op>) -> nat
    decreases ops.len(),
{
    if ops.len() == 0 {
        0
    } else {
        ops_length(ops.drop_last()) + ops.last().len() as nat
    }
}

/// A pairwise alignment record, as the contracts speak of it.
pub ghost struct LastTABView {
    pub seq1: AlignInfoView,
    pub seq2: AlignInfoView,
    pub score: u64,
    pub alignment: Seq<Op>,
    pub eg2: Seq<char>,
    pub e: Seq<char>,
}

/// A struct to represent a last's TAB-format alignment. The two expectation
/// statistics are kept as the text they were read from.
#[derive(Debug, Clone)]
pub struct LastTAB {
    seq1_information: AlignInfo,
    seq2_information: AlignInfo,
    score: u64,
    alignment: Vec<Op>,
    eg2: String,
    e: String,
}

impl View for LastTAB {
    type V = LastTABView;

    closed spec fn view(&self) -> LastTABView {
        LastTABView {
            seq1: self.seq1_information@,
            seq2: self.seq2_information@,
            score: self.score,
            alignment: self.alignment@,
            eg2: self.eg2@,
            e: self.e@,
        }
    }
}

/// Two sides name the same region of the same sequence, counted on the
/// forward strand.
pub open spec fn same_region(a: AlignInfoView, b: AlignInfoView) -> bool {
    a.name == b.name && a.start_from_forward() == b.start_from_forward() && a.end_from_forward()
        == b.end_from_forward()
}

/// Equality of records: the same two regions, in either order.
pub open spec fn same_alignment(x: LastTABView, y: LastTABView) -> bool {
    (same_region(x.seq1, y.seq1) && same_region(x.seq2, y.seq2)) || (same_region(x.seq1, y.seq2)
        && same_region(x.seq2, y.seq1))
}

/// The statistics `(EG2, E)` after reading one optional field: `E=` sets the
/// second, `EG2=` the first, anything else neither.
pub open spec fn read_stat(f: Seq<char>, st: (Seq<char>, Seq<char>)) -> (Seq<char>, Seq<char>) {
    if seq!['E', '='].is_prefix_of(f) {
        (st.0, f.subrange(2, f.len() as int))
    } else if seq!['E', 'G', '2', '='].is_prefix_of(f) {
        (f.subrange(4, f.len() as int), st.1)
    } else {
        st
    }
}

/// The statistics of a line: `2` and `3` unless the line has both optional
/// fields.
pub open spec fn stats_of(f: Seq<Seq<char>>) -> (Seq<char>, Seq<char>) {
    if f.len() > 13 {
        read_stat(f[13], read_stat(f[12], (seq!['2'], seq!['3'])))
    } else {
        (seq!['2'], seq!['3'])
    }
}

/// The record that a tab-separated line makes, if it does.
pub open spec fn last_tab_of(f: Seq<Seq<char>>) -> Option<LastTABView> {
    if f.len() < 12 {
        None
    } else {
        let score = bounded_text(f[0], u64::MAX as nat);
        let seq1 = align_info_of(f.subrange(1, 6));
        let seq2 = align_info_of(f.subrange(6, 11));
        let ops = tokens_ops(split_on(f[11], ','));
        if score is Some && seq1 is Some && seq2 is Some && ops is Some {
            Some(
                LastTABView {
                    seq1: seq1->0,
                    seq2: seq2->0,
                    score: score->0 as u64,
                    alignment: ops->0,
                    eg2: stats_of(f).0,
                    e: stats_of(f).1,
                },
            )
        } else {
            None
        }
    }
}

/// The tab-separated fields of one side.
pub open spec fn side_text(a: AlignInfoView) -> Seq<char> {
    a.name + seq!['\t'] + decimal(a.start as nat) + seq!['\t'] + decimal(a.matchlen as nat)
        + seq!['\t', strand_symbol(a.strand), '\t'] + decimal(a.len as nat)
}

/// The line of a record: score, the two sides, the operations, and the two
/// statistics.
pub open spec fn last_tab_text(x: LastTABView) -> Seq<char> {
    decimal(x.score as nat) + seq!['\t'] + side_text(x.seq1) + seq!['\t'] + side_text(x.seq2)
        + seq!['\t'] + ops_text(x.alignment) + seq!['\t', 'E', 'G', '2', '='] + x.eg2 + seq![
        '\t',
        'E',
        '=',
    ] + x.e
}

fn read_stat_field(f: &Vec<char>, eg2: &mut String, e: &mut String)
    ensures
        (final(eg2)@, final(e)@) == read_stat(f@, (old(eg2)@, old(e)@)),
{
    let e_tag = vec!['E', '='];
    let eg2_tag = vec!['E', 'G', '2', '='];
    proof {
        assert(e_tag@ =~= seq!['E', '=']);
        assert(eg2_tag@ =~= seq!['E', 'G', '2', '=']);
    }
    if has_prefix(f.as_slice(), e_tag.as_slice()) {
        *e = suffix_string(f.as_slice(), 2);
    } else if has_prefix(f.as_slice(), eg2_tag.as_slice()) {
        *eg2 = suffix_string(f.as_slice(), 4);
    }
}

impl LastTAB {
    /// Reads a record from one tab-separated line: score, two sides of five
    /// fields each, the comma-separated operations, then optionally the two
    /// statistics.
    #[verifier::loop_isolation(false)]
    pub fn from_line(line: &str) -> (r: Option<Self>)
        ensures
            match r {
                Some(x) => last_tab_of(split_on(line@, '\t')) == Some(x@),
                None => last_tab_of(split_on(line@, '\t')) is None,
            },
    {
        let chars = chars_of(line);
        let f = split_chars(chars.as_slice(), '\t');
        let ghost fs = split_on(line@, '\t');
        proof {
            assert(vec_views(f@) =~= fs);
        }
        if f.len() < 12 {
            return None;
        }
        let score = match parse_u64(f[0].as_slice()) {
            Some(v) => v,
            None => return None,
        };
        proof {
            assert(vec_views(f@.subrange(1, 6)) =~= fs.subrange(1, 6));
            assert(vec_views(f@.subrange(6, 11)) =~= fs.subrange(6, 11));
        }
        let seq1_information = match AlignInfo::from_splits(&f, 1) {
            Some(a) => a,
            None => return None,
        };
        let seq2_information = match AlignInfo::from_splits(&f, 6) {
            Some(a) => a,
            None => return None,
        };
        let tokens = split_chars(f[11].as_slice(), ',');
        let ghost ts = split_on(fs[11], ',');
        proof {
            assert(vec_views(f@)[11] == f@[11]@);
            assert(f@[11]@ == fs[11]);
        }
        let mut alignment: Vec<Op> = Vec::new();
        let mut k: usize = 0;
        while k < tokens.len()
            invariant
                k <= tokens@.len(),
                tokens@.len() == ts.len(),
                forall|i: int| 0 <= i < tokens@.len() ==> (#[trigger] tokens@[i])@ == ts[i],
                tokens_ops(ts.subrange(0, k as int)) == Some(alignment@),
            decreases tokens@.len() - k,
        {
            proof {
                assert(ts.subrange(0, k + 1).drop_last() =~= ts.subrange(0, k as int));
            }
            if !Op::from_string(&mut alignment, tokens[k].as_slice()) {
                proof {
                    lemma_tokens_fail(ts, k as int);
                }
                return None;
            }
            k = k + 1;
        }
        proof {
            assert(ts.subrange(0, k as int) =~= ts);
        }
        let two = vec!['2'];
        let three = vec!['3'];
        proof {
            assert(two@ =~= seq!['2']);
            assert(three@ =~= seq!['3']);
        }
        let mut eg2 = string_of(two.as_slice());
        let mut e = string_of(three.as_slice());
        if f.len() > 13 {
            read_stat_field(&f[12], &mut eg2, &mut e);
            read_stat_field(&f[13], &mut eg2, &mut e);
        }
        let r = LastTAB { seq1_information, seq2_information, score, alignment, eg2, e };
        proof {
            assert(r@ == last_tab_of(fs)->0);
        }
        Some(r)
    }

    /// A record from its parts.
    pub fn new(
        seq1_information: AlignInfo,
        seq2_information: AlignInfo,
        score: u64,
        alignment: Vec<Op>,
        eg2: String,
        e: String,
    ) -> (r: Self)
        ensures
            r@ == (LastTABView {
                seq1: seq1_information@,
                seq2: seq2_information@,
                score,
                alignment: alignment@,
                eg2: eg2@,
                e: e@,
            }),
    {
        LastTAB { seq1_information, seq2_information, score, alignment, eg2, e }
    }

    /// The reference side.
    pub fn seq1_information(&self) -> (r: &AlignInfo)
        ensures
            r@ == self@.seq1,
    {
        &self.seq1_information
    }

    /// The query side.
    pub fn seq2_information(&self) -> (r: &AlignInfo)
        ensures
            r@ == self@.seq2,
    {
        &self.seq2_information
    }

    pub fn score(&self) -> (r: u64)
        ensures
            r == self@.score,
    {
        self.score
    }

    pub fn seq1_name(&self) -> (r: &str)
        ensures
            r@ == self@.seq1.name,
    {
        self.seq1_information.seqname.as_str()
    }

    pub fn seq2_name(&self) -> (r: &str)
        ensures
            r@ == self@.seq2.name,
    {
        self.seq2_information.seqname.as_str()
    }

    pub fn seq1_start(&self) -> (r: usize)
        ensures
            r == self@.seq1.start,
    {
        self.seq1_information.seqstart
    }

    /// The location where the alignment start,
    /// counted from the start position of the sequence, regardless of the strand.
    /// Thus, if the strand is reversed, the actual alignment starts from seq[start+len] and
    /// end at seq[start], in rev cmp manner.
    pub fn seq1_start_from_forward(&self) -> (r: usize)
        ensures
            r == self@.seq1.start_from_forward(),
            r + self@.seq1.matchlen <= self@.seq1.len,
    {
        self.seq1_information.seqstart_from_forward()
    }

    pub fn seq2_start(&self) -> (r: usize)
        ensures
            r == self@.seq2.start,
    {
        self.seq2_information.seqstart
    }

    pub fn seq2_start_from_forward(&self) -> (r: usize)
        ensures
            r == self@.seq2.start_from_forward(),
            r + self@.seq2.matchlen <= self@.seq2.len,
    {
        self.seq2_information.seqstart_from_forward()
    }

    pub fn seq1_matchlen(&self) -> (r: usize)
        ensures
            r == self@.seq1.matchlen,
    {
        self.seq1_information.matchlen
    }

    pub fn seq2_matchlen(&self) -> (r: usize)
        ensures
            r == self@.seq2.matchlen,
    {
        self.seq2_information.matchlen
    }

    pub fn seq1_end_from_forward(&self) -> (r: usize)
        ensures
            r == self@.seq1.end_from_forward(),
    {
        self.seq1_start_from_forward() + self.seq1_matchlen()
    }

    pub fn seq2_end_from_forward(&self) -> (r: usize)
        ensures
            r == self@.seq2.end_from_forward(),
    {
        self.seq2_start_from_forward() + self.seq2_matchlen()
    }

    pub fn seq1_direction(&self) -> (r: Strand)
        ensures
            r == self@.seq1.strand,
    {
        self.seq1_information.direction
    }

    pub fn seq2_direction(&self) -> (r: Strand)
        ensures
            r == self@.seq2.strand,
    {
        self.seq2_information.direction
    }

    pub fn seq1_len(&self) -> (r: usize)
        ensures
            r == self@.seq1.len,
    {
        self.seq1_information.seqlen
    }

    pub fn seq2_len(&self) -> (r: usize)
        ensures
            r == self@.seq2.len,
    {
        self.seq2_information.seqlen
    }

    pub fn alignment(&self) -> (r: &[Op])
        ensures
            r@ == self@.alignment,
    {
        self.alignment.as_slice()
    }

    /// The E statistic, as the text it was read from.
    pub fn e_score(&self) -> (r: &str)
        ensures
            r@ == self@.e,
    {
        self.e.as_str()
    }

    /// The EG2 statistic, as the text it was read from.
    pub fn eg2_score(&self) -> (r: &str)
        ensures
            r@ == self@.eg2,
    {
        self.eg2.as_str()
    }

    /// Return alignment length: the sum of the operation lengths. Not the
    /// length of the reference nor the query.
    pub fn alignment_length(&self) -> (r: usize)
        requires
            ops_length(self@.alignment) <= usize::MAX,
        ensures
            r == ops_length(self@.alignment),
    {
        let mut total: usize = 0;
        let mut k: usize = 0;
        while k < self.alignment.len()
            invariant
                k <= self.alignment@.len(),
                ops_length(self.alignment@) <= usize::MAX,
                total == ops_length(self.alignment@.subrange(0, k as int)),
            decreases self.alignment@.len() - k,
        {
            proof {
                assert(self.alignment@.subrange(0, k + 1).drop_last() =~= self.alignment@.subrange(
                    0,
                    k as int,
                ));
                lemma_ops_length_prefix(self.alignment@, k + 1);
            }
            let l = match self.alignment[k] {
                Op::Match(l) => l,
                Op::Seq1In(l) => l,
                Op::Seq2In(l) => l,
            };
            total = total + l;
            k = k + 1;
        }
        proof {
            assert(self.alignment@.subrange(0, k as int) =~= self.alignment@);
        }
        total
    }

    /// The record as one tab-separated line.
    pub fn to_line(&self) -> (r: String)
        ensures
            r@ == last_tab_text(self@),
    {
        let mut out: Vec<char> = Vec::new();
        push_decimal(&mut out, self.score);
        out.push('\t');
        self.seq1_information.push_text(&mut out);
        out.push('\t');
        self.seq2_information.push_text(&mut out);
        out.push('\t');
        let ghost head = out@;
        proof {
            assert(head =~= decimal(self.score as nat) + seq!['\t'] + side_text(self@.seq1) + seq![
                '\t',
            ] + side_text(self@.seq2) + seq!['\t']);
        }
        self.push_ops(&mut out);
        let ghost body = out@;
        out.push('\t');
        out.push('E');
        out.push('G');
        out.push('2');
        out.push('=');
        crate::text::push_str(&mut out, self.eg2.as_str());
        out.push('\t');
        out.push('E');
        out.push('=');
        crate::text::push_str(&mut out, self.e.as_str());
        proof {
            assert(out@ =~= body + seq!['\t', 'E', 'G', '2', '='] + self@.eg2 + seq!['\t', 'E', '=']
                + self@.e);
            assert(out@ =~= last_tab_text(self@));
        }
        string_of(out.as_slice())
    }

    /// Appends the operations joined by commas.
    fn push_ops(&self, out: &mut Vec<char>)
        ensures
            final(out)@ == old(out)@ + ops_text(self@.alignment),
    {
        let ghost head = out@;
        let mut k: usize = 0;
        while k < self.alignment.len()
            invariant
                k <= self.alignment@.len(),
                out@ == head + ops_text(self.alignment@.subrange(0, k as int)),
            decreases self.alignment@.len() - k,
        {
            proof {
                assert(self.alignment@.subrange(0, k + 1).drop_last() =~= self.alignment@.subrange(
                    0,
                    k as int,
                ));
            }
            if k > 0 {
                out.push(',');
            }
            self.alignment[k].push_text(out);
            proof {
                if k == 0 {
                    assert(self.alignment@.subrange(0, 1) =~= seq![self.alignment@[0]]);
                }
                assert(out@ =~= head + ops_text(self.alignment@.subrange(0, k + 1)));
            }
            k = k + 1;
        }
        proof {
            assert(self.alignment@.subrange(0, k as int) =~= self.alignment@);
        }
    }
}

proof fn lemma_ops_length_prefix(ops: Seq<Op>, k: int)
    requires
        0 <= k <= ops.len(),
    ensures
        ops_length(ops.subrange(0, k)) <= ops_length(ops),
    decreases ops.len() - k,
{
    if k < ops.len() {
        lemma_ops_length_prefix(ops, k + 1);
        assert(ops.subrange(0, k + 1).drop_last() =~= ops.subrange(0, k));
    } else {
        assert(ops.subrange(0, k) =~= ops);
    }
}

proof fn lemma_tokens_fail(ts: Seq<Seq<char>>, k: int)
    requires
        0 <= k < ts.len(),
        token_ops(ts[k]) is None,
    ensures
        tokens_ops(ts) is None,
    decreases ts.len(),
{
    if k < ts.len() - 1 {
        lemma_tokens_fail(ts.drop_last(), k);
    }
}

impl PartialEq for LastTAB {
    fn eq(&self, other: &Self) -> (r: bool)
        ensures
            r == same_alignment(self@, other@),
    {
        let seq1 = self.seq1_name_eq(other.seq1_name()) && self.seq1_start_from_forward()
            == other.seq1_start_from_forward() && self.seq1_end_from_forward()
            == other.seq1_end_from_forward();
        let seq2 = self.seq2_name_eq(other.seq2_name()) && self.seq2_start_from_forward()
            == other.seq2_start_from_forward() && self.seq2_end_from_forward()
            == other.seq2_end_from_forward();
        let temp = seq1 && seq2;
        let seq1 = self.seq1_name_eq(other.seq2_name()) && self.seq1_start_from_forward()
            == other.seq2_start_from_forward() && self.seq1_end_from_forward()
            == other.seq2_end_from_forward();
        let seq2 = self.seq2_name_eq(other.seq1_name()) && self.seq2_start_from_forward()
            == other.seq1_start_from_forward() && self.seq2_end_from_forward()
            == other.seq1_end_from_forward();
        let rev = seq1 && seq2;
        temp || rev
    }
}

impl vstd::std_specs::cmp::PartialEqSpecImpl for LastTAB {
    open spec fn obeys_eq_spec() -> bool {
        true
    }

    open spec fn eq_spec(&self, other: &LastTAB) -> bool {
        same_alignment(self@, other@)
    }
}

impl LastTAB {
    fn seq1_name_eq(&self, name: &str) -> (r: bool)
        ensures
            r == (self@.seq1.name == name@),
    {
        str_eq(self.seq1_information.seqname.as_str(), name)
    }

    fn seq2_name_eq(&self, name: &str) -> (r: bool)
        ensures
            r == (self@.seq2.name == name@),
    {
        str_eq(self.seq2_information.seqname.as_str(), name)
    }
}



/// The lengths that a name-to-length table holds, keyed by the names'
/// characters.
pub uninterp spec fn length_table(m: HashMap<String, usize>) -> Map<Seq<char>, usize>;

/// Relies on `HashMap::get`: the length stored under the key equal to
/// `name`, if any.
#[verifier::external_body]
fn reference_length(length: &HashMap<String, usize>, name: &str) -> (r: Option<usize>)
    ensures
        match r {
            Some(v) => length_table(*length).contains_key(name@) && length_table(*length)[name@]
                == v,
            None => !length_table(*length).contains_key(name@),
        },
{
    length.get(name).copied()
}

/// Whether an operation is a clip.
pub open spec fn is_clip(o: SamOp) -> bool {
    o is SoftClip || o is HardClip
}

/// The pairwise operations that mapper operations become: a match, mismatch
/// or generic match gives a match, an insertion an insertion to seq1, a
/// deletion an insertion to seq2; the rest give nothing.
pub open spec fn converted_ops(ops: Seq<SamOp>) -> Seq<Op>
    decreases ops.len(),
{
    if ops.len() == 0 {
        Seq::empty()
    } else {
        converted_ops(ops.drop_last()) + match ops.last() {
            SamOp::Align(l) | SamOp::Match(l) | SamOp::Mismatch(l) => seq![Op::Match(l)],
            SamOp::Insertion(l) => seq![Op::Seq1In(l)],
            SamOp::Deletion(l) => seq![Op::Seq2In(l)],
            _ => Seq::empty(),
        }
    }
}

/// Some operation is a skip or a padding, which a pairwise record cannot hold.
pub open spec fn has_unsupported(ops: Seq<SamOp>) -> bool {
    exists|i: int| 0 <= i < ops.len() && (#[trigger] ops[i] is Skipped || ops[i] is Padding)
}

/// Reference bases that the aligned operations consume.
pub open spec fn reference_tally(ops: Seq<SamOp>) -> nat
    decreases ops.len(),
{
    if ops.len() == 0 {
        0
    } else {
        reference_tally(ops.drop_last()) + match ops.last() {
            SamOp::Align(l) | SamOp::Match(l) | SamOp::Mismatch(l) | SamOp::Deletion(l) => l as nat,
            _ => 0,
        }
    }
}

/// Query bases that the aligned operations consume.
pub open spec fn query_tally(ops: Seq<SamOp>) -> nat
    decreases ops.len(),
{
    if ops.len() == 0 {
        0
    } else {
        query_tally(ops.drop_last()) + match ops.last() {
            SamOp::Align(l) | SamOp::Match(l) | SamOp::Mismatch(l) | SamOp::Insertion(l) => l as nat,
            _ => 0,
        }
    }
}

/// The head clip (the first clip met, if any) and the tail clip (the last
/// clip met after it, zero if none).
pub open spec fn clips(ops: Seq<SamOp>) -> (Option<nat>, nat)
    decreases ops.len(),
{
    if ops.len() == 0 {
        (None, 0)
    } else {
        let st = clips(ops.drop_last());
        match ops.last() {
            SamOp::SoftClip(l) | SamOp::HardClip(l) => if st.0 is None {
                (Some(l as nat), st.1)
            } else {
                (st.0, l as nat)
            },
            _ => st,
        }
    }
}

pub open spec fn head_clip(ops: Seq<SamOp>) -> nat {
    match clips(ops).0 {
        Some(h) => h,
        None => 0,
    }
}

pub open spec fn tail_clip(ops: Seq<SamOp>) -> nat {
    clips(ops).1
}

/// The first attribute that begins with `AS`, if any.
pub open spec fn first_as_tag(attr: Seq<Seq<char>>) -> Option<Seq<char>>
    decreases attr.len(),
{
    if attr.len() == 0 {
        None
    } else if seq!['A', 'S'].is_prefix_of(attr[0]) {
        Some(attr[0])
    } else {
        first_as_tag(attr.drop_first())
    }
}

/// The alignment score: the third `:`-separated field of the first `AS`
/// attribute, read as a signed number.
pub open spec fn as_score(attr: Seq<Seq<char>>) -> Option<int> {
    match first_as_tag(attr) {
        Some(tag) => {
            let parts = split_on(tag, ':');
            if parts.len() >= 3 {
                i64_text(parts[2])
            } else {
                None
            }
        },
        None => None,
    }
}

/// The pairwise record that a mapper record becomes, given the reference
/// lengths; none where the record is unmapped, has no readable score, holds a
/// skip or a padding, names an unknown reference, or runs past the
/// reference's end.
pub open spec fn converted_record(rec: RecordView, table: Map<Seq<char>, usize>) -> Option<
    LastTABView,
> {
    let ops = decode_cigar(rec.cigar);
    let score = as_score(rec.attr);
    if rec.pos == 0 || score is None || has_unsupported(ops) || !table.contains_key(rec.r_name)
        || rec.pos - 1 + reference_tally(ops) > table[rec.r_name] {
        None
    } else {
        Some(
            LastTABView {
                seq1: AlignInfoView {
                    name: rec.r_name,
                    start: (rec.pos - 1) as usize,
                    matchlen: reference_tally(ops) as usize,
                    strand: Strand::Forward,
                    len: table[rec.r_name],
                },
                seq2: AlignInfoView {
                    name: rec.q_name,
                    start: head_clip(ops) as usize,
                    matchlen: query_tally(ops) as usize,
                    strand: if rec.flag & 0x10 != 0x10 {
                        Strand::Forward
                    } else {
                        Strand::Reverse
                    },
                    len: (head_clip(ops) + query_tally(ops) + tail_clip(ops)) as usize,
                },
                score: if score->0 < 0 {
                    0
                } else {
                    score->0 as u64
                },
                alignment: converted_ops(ops),
                eg2: seq!['0'],
                e: seq!['0'],
            },
        )
    }
}

proof fn lemma_tallies_bounded(ops: Seq<SamOp>)
    ensures
        reference_tally(ops) <= ref_len(ops),
        query_tally(ops) + head_clip(ops) + tail_clip(ops) <= query_len(ops),
        clips(ops).0 is None ==> tail_clip(ops) == 0,
    decreases ops.len(),
{
    if ops.len() > 0 {
        lemma_tallies_bounded(ops.drop_last());
    }
}

/// Reads the score of the first `AS` attribute.
fn score_of(attr: &[String]) -> (r: Option<i64>)
    ensures
        match as_score(string_views(attr@)) {
            Some(v) => r == Some(v as i64),
            None => r is None,
        },
{
    let tag_prefix = vec!['A', 'S'];
    proof {
        assert(tag_prefix@ =~= seq!['A', 'S']);
    }
    let ghost views = string_views(attr@);
    proof {
        assert(views.subrange(0, views.len() as int) =~= views);
    }
    let mut k: usize = 0;
    while k < attr.len()
        invariant
            k <= attr@.len(),
            views == string_views(attr@),
            tag_prefix@ == seq!['A', 'S'],
            first_as_tag(views) == first_as_tag(views.subrange(k as int, views.len() as int)),
        decreases attr@.len() - k,
    {
        let tag = chars_of(attr[k].as_str());
        let ghost rest = views.subrange(k as int, views.len() as int);
        proof {
            assert(rest[0] == tag@);
            assert(rest.drop_first() =~= views.subrange(k + 1, views.len() as int));
        }
        if has_prefix(tag.as_slice(), tag_prefix.as_slice()) {
            let parts = split_chars(tag.as_slice(), ':');
            if parts.len() < 3 {
                return None;
            }
            return parse_i64(parts[2].as_slice());
        }
        k = k + 1;
    }
    proof {
        assert(views.subrange(k as int, views.len() as int).len() == 0);
    }
    None
}

/// Converts a mapper record into a pairwise alignment record: the reference
/// side runs forward from the mapped position; the query side starts after
/// the head clip, on the strand of the record's orientation flag, and the
/// clips count toward its length. The two statistics are zero.
#[verifier::loop_isolation(false)]
pub fn try_from(value: &Record, length: &HashMap<String, usize>) -> (r: Result<
    LastTAB,
    &'static str,
>)
    requires
        value.wf(),
    ensures
        value@.pos == 0 ==> r is Err,
        match r {
            Ok(x) => converted_record(value@, length_table(*length)) == Some(x@),
            Err(_) => converted_record(value@, length_table(*length)) is None,
        },
{
    if value.pos() == 0 {
        return Err("Alignment Invalid");
    }
    let score = match score_of(value.attr()) {
        Some(s) => s,
        None => return Err("AS tag is not valid."),
    };
    let score: u64 = if score < 0 {
        0
    } else {
        score as u64
    };
    let cigar = value.cigar();
    let ghost ops = cigar@;
    proof {
        lemma_tallies_bounded(ops);
    }
    let mut alignment: Vec<Op> = Vec::new();
    let mut head: usize = 0;
    let mut tail: usize = 0;
    let mut seen_clip = false;
    let mut matchlen_1: usize = 0;
    let mut matchlen_2: usize = 0;
    let mut k: usize = 0;
    while k < cigar.len()
        invariant
            k <= ops.len(),
            cigar@ == ops,
            ops == value.ops(),
            alignment@ == converted_ops(ops.subrange(0, k as int)),
            !has_unsupported(ops.subrange(0, k as int)),
            matchlen_1 == reference_tally(ops.subrange(0, k as int)),
            matchlen_2 == query_tally(ops.subrange(0, k as int)),
            seen_clip == (clips(ops.subrange(0, k as int)).0 is Some),
            head == head_clip(ops.subrange(0, k as int)),
            tail == tail_clip(ops.subrange(0, k as int)),
        decreases ops.len() - k,
    {
        let ghost pre = ops.subrange(0, k as int);
        let ghost next = ops.subrange(0, k + 1);
        proof {
            assert(next.drop_last() =~= pre);
            assert(next.last() == ops[k as int]);
            lemma_prefix_bounds(ops, k + 1);
            lemma_tallies_bounded(next);
        }
        match cigar[k] {
            SamOp::Align(l) | SamOp::Match(l) | SamOp::Mismatch(l) => {
                alignment.push(Op::Match(l));
                matchlen_1 = matchlen_1 + l;
                matchlen_2 = matchlen_2 + l;
            },
            SamOp::Insertion(l) => {
                alignment.push(Op::Seq1In(l));
                matchlen_2 = matchlen_2 + l;
            },
            SamOp::Deletion(l) => {
                alignment.push(Op::Seq2In(l));
                matchlen_1 = matchlen_1 + l;
            },
            SamOp::SoftClip(l) | SamOp::HardClip(l) => {
                if !seen_clip {
                    head = l;
                    seen_clip = true;
                } else {
                    tail = l;
                }
            },
            SamOp::Skipped(_) => {
                proof {
                    assert(ops[k as int] is Skipped);
                }
                return Err("Skipped in Cigar.");
            },
            SamOp::Padding(_) => {
                proof {
                    assert(ops[k as int] is Padding);
                }
                return Err("Padding in Cigar.");
            },
        }
        proof {
            assert(alignment@ =~= converted_ops(next));
            assert forall|i: int| 0 <= i < next.len() implies !(#[trigger] next[i] is Skipped
                || next[i] is Padding) by {
                if i < pre.len() {
                    assert(next[i] == pre[i]);
                }
            }
        }
        k = k + 1;
    }
    proof {
        assert(ops.subrange(0, k as int) =~= ops);
    }
    let seq1_len = match reference_length(length, value.r_name()) {
        Some(l) => l,
        None => return Err("Invalid Reference Name"),
    };
    let start = value.pos() - 1;
    if matchlen_1 > seq1_len || start > seq1_len - matchlen_1 {
        return Err("Alignment exceeds the reference.");
    }
    let seq1_information = AlignInfo {
        seqname: string_of(chars_of(value.r_name()).as_slice()),
        seqstart: start,
        matchlen: matchlen_1,
        direction: Strand::Forward,
        seqlen: seq1_len,
    };
    let direction = if value.is_forward() {
        Strand::Forward
    } else {
        Strand::Reverse
    };
    let seq2_information = AlignInfo {
        seqname: string_of(chars_of(value.q_name()).as_slice()),
        seqstart: head,
        matchlen: matchlen_2,
        direction,
        seqlen: head + matchlen_2 + tail,
    };
    let zero_a = vec!['0'];
    let zero_b = vec!['0'];
    proof {
        assert(zero_a@ =~= seq!['0']);
        assert(zero_b@ =~= seq!['0']);
    }
    let lt = LastTAB {
        score,
        alignment,
        eg2: string_of(zero_a.as_slice()),
        e: string_of(zero_b.as_slice()),
        seq1_information,
        seq2_information,
    };
    proof {
        assert(lt@ == converted_record(value@, length_table(*length))->0);
    }
    Ok(lt)
}

proof fn lemma_prefix_bounds(ops: Seq<SamOp>, k: int)
    requires
        0 <= k <= ops.len(),
    ensures
        ref_len(ops.subrange(0, k)) <= ref_len(ops),
        query_len(ops.subrange(0, k)) <= query_len(ops),
    decreases ops.len() - k,
{
    if k < ops.len() {
        lemma_prefix_bounds(ops, k + 1);
        assert(ops.subrange(0, k + 1).drop_last() =~= ops.subrange(0, k));
    } else {
        assert(ops.subrange(0, k) =~= ops);
    }
}

} // verus!
