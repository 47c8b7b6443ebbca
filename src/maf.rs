//! Multiple alignment format (MAF): the records that its lines build up.
use vstd::prelude::*;
use crate::text::{
    decimal, push_decimal, push_str, bounded_text, chars_of, parse_u64, split_chars, split_on, split_words, str_eq,
    string_of, vec_views, words,
};

verus! {

#[derive(Debug, Clone, Copy, PartialEq, Eq, Structural)]
pub enum Strand {
    Forward,
    Reverse,
}

impl Strand {
    /// `+` for forward, `-` for reverse.
    pub fn symbol(self) -> (r: char)
        ensures
            r == (if self == Strand::Forward {
                '+'
            } else {
                '-'
            }),
    {
        match self {
            Strand::Forward => '+',
            Strand::Reverse => '-',
        }
    }
}

/// One `s` line of an alignment block, as the contracts speak of it.
pub ghost struct SequenceView {
    pub name: Seq<char>,
    pub start: u64,
    pub length: u64,
    pub strand: Strand,
    pub src_size: u64,
    pub text: Seq<u8>,
}

/// One sequence of an alignment block.
#[derive(Debug, Clone)]
pub struct Sequence {
    name: String,
    start: u64,
    length: u64,
    strand: Strand,
    src_size: u64,
    text: Vec<u8>,
}

impl View for Sequence {
    type V = SequenceView;

    closed spec fn view(&self) -> SequenceView {
        SequenceView {
            name: self.name@,
            start: self.start,
            length: self.length,
            strand: self.strand,
            src_size: self.src_size,
            text: self.text@,
        }
    }
}

pub open spec fn u64_field(f: Seq<char>) -> Option<u64> {
    match bounded_text(f, u64::MAX as nat) {
        Some(v) => Some(v as u64),
        None => None,
    }
}

/// The strand a field names: `+` or `-`, nothing else.
pub open spec fn strand_field(f: Seq<char>) -> Option<Strand> {
    if f == seq!['+'] {
        Some(Strand::Forward)
    } else if f == seq!['-'] {
        Some(Strand::Reverse)
    } else {
        None
    }
}

/// The bytes of the characters of an ASCII text.
pub open spec fn ascii_bytes(s: Seq<char>) -> Seq<u8> {
    Seq::new(s.len(), |i: int| s[i] as u8)
}

pub open spec fn all_ascii(s: Seq<char>) -> bool {
    forall|i: int| 0 <= i < s.len() ==> (#[trigger] s[i] as u32) < 128
}

/// The sequence that the words of an `s` line give: `s`, name, start,
/// length, strand, source size, text.
pub open spec fn seq_line(w: Seq<Seq<char>>) -> Option<SequenceView> {
    if w.len() < 7 || u64_field(w[2]) is None || u64_field(w[3]) is None || strand_field(
        w[4],
    ) is None || u64_field(w[5]) is None || !all_ascii(w[6]) {
        None
    } else {
        Some(
            SequenceView {
                name: w[1],
                start: u64_field(w[2])->0,
                length: u64_field(w[3])->0,
                strand: strand_field(w[4])->0,
                src_size: u64_field(w[5])->0,
                text: ascii_bytes(w[6]),
            },
        )
    }
}

fn strand_from(f: &Vec<char>) -> (r: Option<Strand>)
    ensures
        r == strand_field(f@),
{
    if f.len() == 1 && f[0] == '+' {
        assert(f@ =~= seq!['+']);
        Some(Strand::Forward)
    } else if f.len() == 1 && f[0] == '-' {
        assert(f@ =~= seq!['-']);
        Some(Strand::Reverse)
    } else {
        proof {
            if f@ == seq!['+'] || f@ == seq!['-'] {
                assert(f@.len() == 1);
            }
        }
        None
    }
}

fn ascii_text(f: &Vec<char>) -> (r: Option<Vec<u8>>)
    ensures
        match r {
            Some(t) => all_ascii(f@) && t@ == ascii_bytes(f@),
            None => !all_ascii(f@),
        },
{
    let mut out: Vec<u8> = Vec::new();
    let mut i: usize = 0;
    while i < f.len()
        invariant
            i <= f@.len(),
            forall|k: int| 0 <= k < i ==> (#[trigger] f@[k] as u32) < 128,
            out@ == ascii_bytes(f@.subrange(0, i as int)),
        decreases f@.len() - i,
    {
        if (f[i] as u32) >= 128 {
            return None;
        }
        out.push(f[i] as u8);
        proof {
            assert(out@ =~= ascii_bytes(f@.subrange(0, i + 1)));
        }
        i = i + 1;
    }
    proof {
        assert(f@.subrange(0, i as int) =~= f@);
    }
    Some(out)
}

impl Sequence {
    /// Reads the sequence of an `s` line from its words.
    fn from_words(w: &Vec<Vec<char>>) -> (r: Option<Sequence>)
        ensures
            match r {
                Some(s) => seq_line(vec_views(w@)) == Some(s@),
                None => seq_line(vec_views(w@)) is None,
            },
    {
        let ghost ws = vec_views(w@);
        if w.len() < 7 {
            return None;
        }
        proof {
            assert forall|i: int| 0 <= i < w@.len() implies (#[trigger] w@[i])@ == ws[i] by {}
        }
        let start = match parse_u64(w[2].as_slice()) {
            Some(v) => v,
            None => return None,
        };
        let length = match parse_u64(w[3].as_slice()) {
            Some(v) => v,
            None => return None,
        };
        let strand = match strand_from(&w[4]) {
            Some(s) => s,
            None => return None,
        };
        let src_size = match parse_u64(w[5].as_slice()) {
            Some(v) => v,
            None => return None,
        };
        let text = match ascii_text(&w[6]) {
            Some(t) => t,
            None => return None,
        };
        let s = Sequence { name: string_of(w[1].as_slice()), start, length, strand, src_size, text };
        proof {
            assert(s@ == seq_line(ws)->0);
        }
        Some(s)
    }

    /// Empties the name and the text.
    fn clear(&mut self)
        ensures
            final(self)@.name.len() == 0,
            final(self)@.text.len() == 0,
    {
        self.name = String::new();
        self.text = Vec::new();
    }

    /// Overwrites this sequence with the one that the words of an `s` line
    /// give; false, with nothing changed, where they give none.
    fn update(&mut self, w: &Vec<Vec<char>>) -> (ok: bool)
        ensures
            match seq_line(vec_views(w@)) {
                Some(v) => ok && final(self)@ == v,
                None => !ok && *final(self) == *old(self),
            },
    {
        match Sequence::from_words(w) {
            Some(s) => {
                *self = s;
                true
            },
            None => false,
        }
    }

    pub fn name(&self) -> (r: &str)
        ensures
            r@ == self@.name,
    {
        self.name.as_str()
    }

    pub fn start(&self) -> (r: u64)
        ensures
            r == self@.start,
    {
        self.start
    }

    pub fn length(&self) -> (r: u64)
        ensures
            r == self@.length,
    {
        self.length
    }

    pub fn strand(&self) -> (r: Strand)
        ensures
            r == self@.strand,
    {
        self.strand
    }

    pub fn is_forward(&self) -> (r: bool)
        ensures
            r == (self@.strand == Strand::Forward),
    {
        match self.strand {
            Strand::Forward => true,
            Strand::Reverse => false,
        }
    }

    pub fn src_size(&self) -> (r: u64)
        ensures
            r == self@.src_size,
    {
        self.src_size
    }

    pub fn text(&self) -> (r: &[u8])
        ensures
            r@ == self@.text,
    {
        self.text.as_slice()
    }
}

/// An alignment block. The score is kept as the text it was read from.
#[derive(Debug, Clone)]
pub struct Record {
    score: Option<String>,
    pass: Option<u64>,
    header: Vec<(String, String)>,
    sequence: Vec<Sequence>,
    sequence_index: usize,
}

pub open spec fn sequence_views(v: Seq<Sequence>) -> Seq<SequenceView> {
    v.map_values(|s: Sequence| s@)
}

pub open spec fn pair_views(v: Seq<(String, String)>) -> Seq<
    (Seq<char>, Seq<char>),
> {
    v.map_values(|p: (String, String)| (p.0@, p.1@))
}

/// The score text, pass count and other header pairs that the fields of an
/// `a` line give, from `st` on: each field `key=value` sets the score, the
/// pass count (where it reads), or adds a pair; a field without `=` gives
/// nothing.
pub open spec fn alignment_fields(
    fs: Seq<Seq<char>>,
    st: (
        Option<Seq<char>>,
        Option<u64>,
        Seq<(Seq<char>, Seq<char>)>,
    ),
) -> (
    Option<Seq<char>>,
    Option<u64>,
    Seq<(Seq<char>, Seq<char>)>,
)
    decreases fs.len(),
{
    if fs.len() == 0 {
        st
    } else {
        let prev = alignment_fields(fs.drop_last(), st);
        let slots = split_on(fs.last(), '=');
        if slots.len() < 2 {
            prev
        } else if slots[0] == seq!['s', 'c', 'o', 'r', 'e'] {
            (Some(slots[1]), prev.1, prev.2)
        } else if slots[0] == seq!['p', 'a', 's', 's'] {
            (prev.0, u64_field(slots[1]), prev.2)
        } else {
            (prev.0, prev.1, prev.2.push((slots[0], slots[1])))
        }
    }
}

/// The words of an `a` line after the first.
pub open spec fn header_words(line: Seq<char>) -> Seq<Seq<char>> {
    let w = words(line);
    if w.len() == 0 {
        Seq::empty()
    } else {
        w.drop_first()
    }
}

impl Record {
    pub closed spec fn score_text(&self) -> Option<Seq<char>> {
        match self.score {
            Some(s) => Some(s@),
            None => None,
        }
    }

    pub closed spec fn pass_count(&self) -> Option<u64> {
        self.pass
    }

    pub closed spec fn headers(&self) -> Seq<
        (Seq<char>, Seq<char>),
    > {
        pair_views(self.header@)
    }

    pub closed spec fn seqs(&self) -> Seq<SequenceView> {
        sequence_views(self.sequence@)
    }

    /// The sequences themselves.
    pub closed spec fn sequences(&self) -> Seq<Sequence> {
        self.sequence@
    }

    pub closed spec fn index(&self) -> usize {
        self.sequence_index
    }

    /// A record with nothing in it.
    pub fn new() -> (r: Record)
        ensures
            r.score_text() is None,
            r.pass_count() is None,
            r.headers().len() == 0,
            r.seqs().len() == 0,
            r.index() == 0,
    {
        Record {
            score: None,
            pass: None,
            header: Vec::new(),
            sequence: Vec::new(),
            sequence_index: 0,
        }
    }

    pub fn is_empty(&self) -> (r: bool)
        ensures
            r == (self.score_text() is None && self.pass_count() is None && self.headers().len()
                == 0 && self.seqs().len() == 0 && self.index() == 0),
    {
        self.score.is_none() && self.pass.is_none() && self.header.len() == 0
            && self.sequence.len() == 0 && self.sequence_index == 0
    }

    /// Clears the record for reuse: the sequences keep their places but lose
    /// their names and texts.
    pub fn clear(&mut self)
        ensures
            final(self).score_text() is None,
            final(self).pass_count() is None,
            final(self).headers().len() == 0,
            final(self).seqs().len() == old(self).seqs().len(),
            forall|i: int|
                0 <= i < final(self).seqs().len() ==> (#[trigger] final(self).seqs()[i]).name.len()
                    == 0 && final(self).seqs()[i].text.len() == 0,
            final(self).index() == 0,
    {
        self.score = None;
        self.pass = None;
        self.header = Vec::new();
        let mut k: usize = 0;
        let ghost n = self.sequence@.len();
        while k < self.sequence.len()
            invariant
                k <= self.sequence@.len(),
                self.sequence@.len() == n,
                self.score is None,
                self.pass is None,
                self.header@.len() == 0,
                forall|i: int|
                    0 <= i < k ==> (#[trigger] self.sequence@[i])@.name.len() == 0
                        && self.sequence@[i]@.text.len() == 0,
            decreases n - k,
        {
            let mut s = self.sequence[k].clone();
            s.clear();
            self.sequence.set(k, s);
            k = k + 1;
        }
        self.sequence_index = 0;
    }

    /// The score, as the text it was read from.
    pub fn score(&self) -> (r: Option<&str>)
        ensures
            match self.score_text() {
                Some(t) => r is Some && r->0@ == t,
                None => r is None,
            },
    {
        match &self.score {
            Some(s) => Some(s.as_str()),
            None => None,
        }
    }

    pub fn pass(&self) -> (r: Option<u64>)
        ensures
            r == self.pass_count(),
    {
        self.pass
    }

    pub fn other_header(&self) -> (r: &[(String, String)])
        ensures
            pair_views(r@) == self.headers(),
    {
        self.header.as_slice()
    }

    pub fn sequence(&self) -> (r: &[Sequence])
        ensures
            sequence_views(r@) == self.seqs(),
    {
        self.sequence.as_slice()
    }

    /// Return the first sequence with the given name, if any.
    pub fn with_query_name(&self, name: &str) -> (r: Option<&Sequence>)
        ensures
            match r {
                Some(s) => s@.name == name@ && exists|i: int|
                    0 <= i < self.seqs().len() && self.seqs()[i] == s@ && forall|j: int|
                        0 <= j < i ==> (#[trigger] self.seqs()[j]).name != name@,
                None => forall|j: int|
                    0 <= j < self.seqs().len() ==> (#[trigger] self.seqs()[j]).name != name@,
            },
    {
        let mut k: usize = 0;
        while k < self.sequence.len()
            invariant
                k <= self.sequence@.len(),
                forall|j: int| 0 <= j < k ==> (#[trigger] self.seqs()[j]).name != name@,
            decreases self.sequence@.len() - k,
        {
            if str_eq(self.sequence[k].name(), name) {
                proof {
                    assert(self.seqs()[k as int] == self.sequence@[k as int]@);
                }
                return Some(&self.sequence[k]);
            }
            proof {
                assert(self.seqs()[k as int] == self.sequence@[k as int]@);
            }
            k = k + 1;
        }
        None
    }

    /// Return the first sequence that the predicate accepts, if any.
    pub fn find_sequence<P: Fn(&Sequence) -> bool>(&self, predicate: P) -> (r: Option<&Sequence>)
        requires
            forall|s: &Sequence| predicate.requires((s,)),
        ensures
            match r {
                Some(s) => predicate.ensures((s,), true),
                None => forall|i: int|
                    0 <= i < self.sequences().len() ==> predicate.ensures(
                        (&self.sequences()[i],),
                        false,
                    ),
            },
    {
        let mut k: usize = 0;
        while k < self.sequence.len()
            invariant
                k <= self.sequence@.len(),
                forall|s: &Sequence| predicate.requires((s,)),
                forall|i: int|
                    0 <= i < k ==> predicate.ensures((&self.sequence@[i],), false),
            decreases self.sequence@.len() - k,
        {
            let s = &self.sequence[k];
            if predicate(s) {
                return Some(s);
            }
            k = k + 1;
        }
        None
    }

    /// Takes one line of a block: an `a` line sets the header, an `s` line
    /// adds a sequence; other lines are ignored. False where an `s` line does
    /// not read, the record then unchanged.
    pub fn add_line(&mut self, line: &str) -> (ok: bool)
        ensures
            !ok ==> *final(self) == *old(self),
            line@.len() > 0 && line@[0] == 'a' ==> ok && final(self).seqs() == old(self).seqs()
                && final(self).index() == old(self).index() && ({
                let st = alignment_fields(
                    header_words(line@),
                    (old(self).score_text(), old(self).pass_count(), seq![]),
                );
                &&& final(self).score_text() == st.0
                &&& final(self).pass_count() == st.1
                &&& final(self).headers() == st.2
            }),
            line@.len() > 0 && line@[0] == 's' ==> match seq_line(words(line@)) {
                Some(v) => ok && final(self).index() == old(self).index() + 1 && (if old(
                    self,
                ).index() < old(self).seqs().len() {
                    final(self).seqs() == old(self).seqs().update(old(self).index() as int, v)
                } else {
                    final(self).seqs() == old(self).seqs().push(v)
                }),
                None => !ok,
            } || old(self).index() == usize::MAX,
            !(line@.len() > 0 && (line@[0] == 'a' || line@[0] == 's')) ==> ok && *final(self)
                == *old(self),
    {
        let chars = chars_of(line);
        if chars.len() > 0 && chars[0] == 'a' {
            self.add_alignment(&chars);
            true
        } else if chars.len() > 0 && chars[0] == 's' {
            self.add_sequence(&chars)
        } else {
            true
        }
    }

    fn add_alignment(&mut self, line: &Vec<char>)
        ensures
            final(self).seqs() == old(self).seqs(),
            final(self).index() == old(self).index(),
            ({
                let st = alignment_fields(
                    header_words(line@),
                    (old(self).score_text(), old(self).pass_count(), seq![]),
                );
                &&& final(self).score_text() == st.0
                &&& final(self).pass_count() == st.1
                &&& final(self).headers() == st.2
            }),
    {
        let w = split_words(line.as_slice());
        let ghost ws = vec_views(w@);
        let ghost fields = header_words(line@);
        let score_tag = vec!['s', 'c', 'o', 'r', 'e'];
        let pass_tag = vec!['p', 'a', 's', 's'];
        proof {
            assert(score_tag@ =~= seq!['s', 'c', 'o', 'r', 'e']);
            assert(pass_tag@ =~= seq!['p', 'a', 's', 's']);
        }
        let ghost init = (self.score_text(), self.pass_count(), Seq::<
            (Seq<char>, Seq<char>),
        >::empty());
        let mut header: Vec<(String, String)> = Vec::new();
        let mut k: usize = 1;
        proof {
            assert(fields.subrange(0, 0) =~= Seq::<Seq<char>>::empty());
        }
        while k < w.len()
            invariant
                1 <= k,
                w@.len() == 0 || k <= w@.len(),
                w@.len() == 0 ==> k == 1,
                ws == vec_views(w@),
                w@.len() > 0 ==> fields == ws.drop_first(),
                fields == header_words(line@),
                ws == words(line@),
                init == (old(self).score_text(), old(self).pass_count(), Seq::<
                    (Seq<char>, Seq<char>),
                >::empty()),
                w@.len() == 0 ==> fields.len() == 0,
                score_tag@ == seq!['s', 'c', 'o', 'r', 'e'],
                pass_tag@ == pass_tag@,
                pass_tag@ == seq!['p', 'a', 's', 's'],
                ({
                    let st = alignment_fields(fields.subrange(0, k - 1), init);
                    &&& self.score_text() == st.0
                    &&& self.pass_count() == st.1
                    &&& pair_views(header@) == st.2
                }),
                self.seqs() == old(self).seqs(),
                self.index() == old(self).index(),
            decreases w@.len() - k,
        {
            let ghost next = fields.subrange(0, k as int);
            proof {
                assert(next.drop_last() =~= fields.subrange(0, k - 1));
                assert(next.last() == w@[k as int]@);
            }
            let slots = split_chars(w[k].as_slice(), '=');
            let ghost prev = header@;
            if slots.len() >= 2 {
                if str_eq_chars(&slots[0], &score_tag) {
                    self.score = Some(string_of(slots[1].as_slice()));
                } else if str_eq_chars(&slots[0], &pass_tag) {
                    self.pass = parse_u64(slots[1].as_slice());
                } else {
                    let pair = (string_of(slots[0].as_slice()), string_of(slots[1].as_slice()));
                    header.push(pair);
                    proof {
                        assert(pair_views(header@) =~= pair_views(prev).push((pair.0@, pair.1@)));
                    }
                }
            }
            k = k + 1;
        }
        proof {
            assert(ws.len() == w@.len());
            let done = fields.subrange(0, k - 1);
            assert(self.score_text() == alignment_fields(done, init).0);
            assert(self.pass_count() == alignment_fields(done, init).1);
            if w@.len() > 0 {
                assert(k == w@.len());
                assert(done =~= fields);
            } else {
                assert(done =~= fields);
            }
        }
        self.header = header;
    }

    fn add_sequence(&mut self, line: &Vec<char>) -> (ok: bool)
        ensures
            !ok ==> *final(self) == *old(self),
            match seq_line(words(line@)) {
                Some(v) => ok && final(self).index() == old(self).index() + 1 && (if old(
                    self,
                ).index() < old(self).seqs().len() {
                    final(self).seqs() == old(self).seqs().update(old(self).index() as int, v)
                } else {
                    final(self).seqs() == old(self).seqs().push(v)
                }),
                None => !ok,
            } || old(self).index() == usize::MAX,
            final(self).score_text() == old(self).score_text(),
            final(self).pass_count() == old(self).pass_count(),
            final(self).headers() == old(self).headers(),
    {
        if self.sequence_index == usize::MAX {
            return false;
        }
        let w = split_words(line.as_slice());
        let s = match Sequence::from_words(&w) {
            Some(s) => s,
            None => return false,
        };
        let ghost before = self.sequence@;
        if self.sequence_index < self.sequence.len() {
            self.sequence.set(self.sequence_index, s);
            proof {
                assert(sequence_views(self.sequence@) =~= sequence_views(before).update(
                    old(self).sequence_index as int,
                    s@,
                ));
            }
        } else {
            self.sequence.push(s);
            proof {
                assert(sequence_views(self.sequence@) =~= sequence_views(before).push(s@));
            }
        }
        self.sequence_index = self.sequence_index + 1;
        true
    }
}

fn str_eq_chars(a: &Vec<char>, b: &Vec<char>) -> (r: bool)
    ensures
        r == (a@ == b@),
{
    if a.len() != b.len() {
        return false;
    }
    let mut i: usize = 0;
    while i < a.len()
        invariant
            i <= a@.len(),
            a@.len() == b@.len(),
            forall|k: int| 0 <= k < i ==> a@[k] == b@[k],
        decreases a@.len() - i,
    {
        if a[i] != b[i] {
            proof {
                assert(a@[i as int] != b@[i as int]);
            }
            return false;
        }
        i = i + 1;
    }
    proof {
        assert(a@ =~= b@);
    }
    true
}


/// The characters of ASCII bytes.
pub open spec fn ascii_chars(b: Seq<u8>) -> Seq<char> {
    Seq::new(b.len(), |i: int| b[i] as char)
}

/// The `s` line of a sequence.
pub open spec fn sequence_text(s: SequenceView) -> Seq<char> {
    seq!['s', ' '] + s.name + seq![' '] + decimal(s.start as nat) + seq![' '] + decimal(
        s.length as nat,
    ) + seq![
        ' ',
        if s.strand == Strand::Forward {
            '+'
        } else {
            '-'
        },
        ' ',
    ] + decimal(s.src_size as nat) + seq![' '] + ascii_chars(s.text)
}

/// The `key=value ` text of header pairs.
pub open spec fn pairs_text(p: Seq<(Seq<char>, Seq<char>)>) -> Seq<char>
    decreases p.len(),
{
    if p.len() == 0 {
        Seq::empty()
    } else {
        pairs_text(p.drop_last()) + p.last().0 + seq!['='] + p.last().1 + seq![' ']
    }
}

/// The lines of the sequences, each ended by a newline.
pub open spec fn sequences_text(v: Seq<SequenceView>) -> Seq<char>
    decreases v.len(),
{
    if v.len() == 0 {
        Seq::empty()
    } else {
        sequences_text(v.drop_last()) + sequence_text(v.last()) + seq!['\n']
    }
}

impl Sequence {
    /// The sequence as an `s` line.
    pub fn to_line(&self) -> (r: String)
        ensures
            r@ == sequence_text(self@),
    {
        let mut out: Vec<char> = Vec::new();
        self.push_line(&mut out);
        assert(out@ =~= sequence_text(self@));
        string_of(out.as_slice())
    }

    fn push_line(&self, out: &mut Vec<char>)
        ensures
            final(out)@ == old(out)@ + sequence_text(self@),
    {
        out.push('s');
        out.push(' ');
        push_str(out, self.name.as_str());
        out.push(' ');
        push_decimal(out, self.start);
        out.push(' ');
        push_decimal(out, self.length);
        out.push(' ');
        out.push(self.strand.symbol());
        out.push(' ');
        push_decimal(out, self.src_size);
        out.push(' ');
        let ghost mid = out@;
        let mut i: usize = 0;
        while i < self.text.len()
            invariant
                i <= self.text@.len(),
                out@ == mid + ascii_chars(self.text@.subrange(0, i as int)),
            decreases self.text@.len() - i,
        {
            out.push(self.text[i] as char);
            proof {
                assert(mid + ascii_chars(self.text@.subrange(0, i + 1)) =~= (mid + ascii_chars(
                    self.text@.subrange(0, i as int),
                )).push(self.text@[i as int] as char));
            }
            i = i + 1;
        }
        proof {
            assert(self.text@.subrange(0, i as int) =~= self.text@);
            assert(final(out)@ =~= old(out)@ + sequence_text(self@));
        }
    }
}

/// The `a` line of a block, without its newline.
pub open spec fn block_header_text(
    score: Option<Seq<char>>,
    pass: Option<u64>,
    pairs: Seq<(Seq<char>, Seq<char>)>,
) -> Seq<char> {
    seq!['a', ' '] + match score {
        Some(t) => seq!['s', 'c', 'o', 'r', 'e', '='] + t + seq![' '],
        None => Seq::empty(),
    } + match pass {
        Some(p) => seq!['p', 'a', 's', 's', '='] + decimal(p as nat) + seq![' '],
        None => Seq::empty(),
    } + pairs_text(pairs)
}

impl Record {
    /// The block as text: the `a` line with the score, the pass count and the
    /// other pairs, then one `s` line per sequence.
    pub fn to_text(&self) -> (r: String)
        ensures
            r@ == block_header_text(self.score_text(), self.pass_count(), self.headers()) + seq![
                '\n',
            ] + sequences_text(self.seqs()),
    {
        let mut out: Vec<char> = Vec::new();
        self.push_header_line(&mut out);
        out.push('\n');
        let ghost body = out@;
        self.push_sequences(&mut out);
        proof {
            assert(out@ =~= block_header_text(self.score_text(), self.pass_count(), self.headers())
                + seq!['\n'] + sequences_text(self.seqs()));
        }
        string_of(out.as_slice())
    }

    fn push_header_line(&self, out: &mut Vec<char>)
        ensures
            final(out)@ == old(out)@ + block_header_text(
                self.score_text(),
                self.pass_count(),
                self.headers(),
            ),
    {
        out.push('a');
        out.push(' ');
        let ghost a = out@;
        match &self.score {
            Some(t) => {
                out.push('s');
                out.push('c');
                out.push('o');
                out.push('r');
                out.push('e');
                out.push('=');
                push_str(out, t.as_str());
                out.push(' ');
            },
            None => {},
        }
        let ghost b = out@;
        proof {
            assert(b =~= a + match self.score_text() {
                Some(t) => seq!['s', 'c', 'o', 'r', 'e', '='] + t + seq![' '],
                None => Seq::empty(),
            });
        }
        match self.pass {
            Some(p) => {
                out.push('p');
                out.push('a');
                out.push('s');
                out.push('s');
                out.push('=');
                push_decimal(out, p);
                out.push(' ');
            },
            None => {},
        }
        let ghost head = out@;
        proof {
            assert(head =~= b + match self.pass_count() {
                Some(p) => seq!['p', 'a', 's', 's', '='] + decimal(p as nat) + seq![' '],
                None => Seq::empty(),
            });
        }
        let ghost hs = self.headers();
        let mut k: usize = 0;
        while k < self.header.len()
            invariant
                k <= self.header@.len(),
                hs == pair_views(self.header@),
                out@ == head + pairs_text(hs.subrange(0, k as int)),
            decreases self.header@.len() - k,
        {
            proof {
                assert(hs.subrange(0, k + 1).drop_last() =~= hs.subrange(0, k as int));
                assert(hs.subrange(0, k + 1).last() == hs[k as int]);
            }
            let pair = &self.header[k];
            push_str(out, pair.0.as_str());
            out.push('=');
            push_str(out, pair.1.as_str());
            out.push(' ');
            proof {
                assert(out@ =~= head + pairs_text(hs.subrange(0, k + 1)));
            }
            k = k + 1;
        }
        proof {
            assert(hs.subrange(0, k as int) =~= hs);
            assert(out@ =~= old(out)@ + block_header_text(
                self.score_text(),
                self.pass_count(),
                self.headers(),
            ));
        }
    }

    fn push_sequences(&self, out: &mut Vec<char>)
        ensures
            final(out)@ == old(out)@ + sequences_text(self.seqs()),
    {
        let ghost body = out@;
        let ghost ss = self.seqs();
        let mut j: usize = 0;
        while j < self.sequence.len()
            invariant
                j <= self.sequence@.len(),
                ss == sequence_views(self.sequence@),
                out@ == body + sequences_text(ss.subrange(0, j as int)),
            decreases self.sequence@.len() - j,
        {
            proof {
                assert(ss.subrange(0, j + 1).drop_last() =~= ss.subrange(0, j as int));
                assert(ss.subrange(0, j + 1).last() == self.sequence@[j as int]@);
            }
            self.sequence[j].push_line(out);
            out.push('\n');
            proof {
                assert(out@ =~= body + sequences_text(ss.subrange(0, j + 1)));
            }
            j = j + 1;
        }
        proof {
            assert(ss.subrange(0, j as int) =~= ss);
        }
    }
}

} // verus!
