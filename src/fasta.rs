//! FASTA records, and reading them from the text of a FASTA file.
use vstd::prelude::*;
use crate::text::{
    chars_of, find_char, first_index, lemma_first_index, push_str, split_chars, split_on,
    string_of, suffix_string, vec_views,
};

verus! {

/// A FASTA record, as the contracts speak of it.
pub ghost struct RecordView {
    pub id: Seq<char>,
    pub desc: Option<Seq<char>>,
    pub seq: Seq<char>,
}

/// One FASTA record: identifier, optional description, and sequence.
#[derive(Debug, Clone)]
pub struct Record {
    id: String,
    desc: Option<String>,
    seq: String,
}

impl View for Record {
    type V = RecordView;

    closed spec fn view(&self) -> RecordView {
        RecordView {
            id: self.id@,
            desc: match self.desc {
                Some(d) => Some(d@),
                None => None,
            },
            seq: self.seq@,
        }
    }
}

/// The lines of a text as `str::lines` gives them: split at `\n`, a final
/// empty piece dropped, and a `\r` before a `\n` removed.
pub open spec fn text_lines(t: Seq<char>) -> Seq<Seq<char>> {
    let parts = split_on(t, '\n');
    let n = if parts.last().len() == 0 {
        parts.len() - 1
    } else {
        parts.len() as int
    };
    Seq::new(
        n as nat,
        |i: int|
            if i < parts.len() - 1 && parts[i].len() > 0 && parts[i].last() == '\r' {
                parts[i].drop_last()
            } else {
                parts[i]
            },
    )
}

/// The record that a header line and a sequence make: the identifier runs
/// from after the first character to the first space, the description is
/// what follows that space.
pub open spec fn record_of(header: Seq<char>, seq: Seq<char>) -> RecordView {
    let body = if header.len() > 0 {
        header.drop_first()
    } else {
        header
    };
    let at = first_index(body, ' ');
    RecordView {
        id: body.subrange(0, at as int),
        desc: if at < body.len() {
            Some(body.subrange(at as int + 1, body.len() as int))
        } else {
            None
        },
        seq,
    }
}

/// The state of the reading after some lines: the records so far, the
/// header and sequence being read, and whether reading has stopped.
pub ghost struct ReadState {
    pub done: Seq<RecordView>,
    pub current: Option<(Seq<char>, Seq<char>)>,
    pub stopped: bool,
}

/// One line more: the first line is a header; a later `>` line ends the
/// record being read (reading stops there if its sequence is empty) and
/// starts the next; any other line adds to the sequence.
pub open spec fn read_step(st: ReadState, l: Seq<char>) -> ReadState {
    if st.stopped {
        st
    } else {
        match st.current {
            None => ReadState { done: st.done, current: Some((l, Seq::empty())), stopped: false },
            Some(cur) => if l.len() > 0 && l[0] == '>' {
                if cur.1.len() == 0 {
                    ReadState { done: st.done, current: st.current, stopped: true }
                } else {
                    ReadState {
                        done: st.done.push(record_of(cur.0, cur.1)),
                        current: Some((l, Seq::empty())),
                        stopped: false,
                    }
                }
            } else {
                ReadState { done: st.done, current: Some((cur.0, cur.1 + l)), stopped: false }
            },
        }
    }
}

pub open spec fn read_lines(lines: Seq<Seq<char>>) -> ReadState
    decreases lines.len(),
{
    if lines.len() == 0 {
        ReadState { done: Seq::empty(), current: None, stopped: false }
    } else {
        read_step(read_lines(lines.drop_last()), lines.last())
    }
}

/// The records of a FASTA text: each header with the lines up to the next
/// header as its sequence, up to the first record whose sequence is empty.
pub open spec fn fasta_records(t: Seq<char>) -> Seq<RecordView> {
    let st = read_lines(text_lines(t));
    match st.current {
        Some(cur) => if !st.stopped && cur.1.len() > 0 {
            st.done.push(record_of(cur.0, cur.1))
        } else {
            st.done
        },
        None => st.done,
    }
}

/// How many times `b` occurs in `s`.
pub open spec fn byte_count(s: Seq<u8>, b: u8) -> nat
    decreases s.len(),
{
    if s.len() == 0 {
        0
    } else {
        byte_count(s.drop_last(), b) + if s.last() == b {
            1nat
        } else {
            0nat
        }
    }
}

/// Relies on `bytecount::count`: the number of bytes of `haystack` equal to
/// `needle`.
#[verifier::external_body]
fn count_bytes(haystack: &[u8], needle: u8) -> (r: usize)
    ensures
        r == byte_count(haystack@, needle),
{
    bytecount::count(haystack, needle)
}

pub open spec fn record_views(v: Seq<Record>) -> Seq<RecordView> {
    v.map_values(|r: Record| r@)
}

fn make_record(header: &Vec<char>, seq: &Vec<char>) -> (r: Record)
    ensures
        r@ == record_of(header@, seq@),
{
    let from: usize = if header.len() > 0 {
        1
    } else {
        0
    };
    let mut body: Vec<char> = Vec::new();
    let mut i: usize = from;
    while i < header.len()
        invariant
            from <= i <= header@.len(),
            from == (if header@.len() > 0 {
                1int
            } else {
                0
            }),
            body@ == header@.subrange(from as int, i as int),
        decreases header@.len() - i,
    {
        body.push(header[i]);
        proof {
            assert(header@.subrange(from as int, i + 1) =~= header@.subrange(
                from as int,
                i as int,
            ).push(header@[i as int]));
        }
        i = i + 1;
    }
    proof {
        if header@.len() > 0 {
            assert(body@ =~= header@.drop_first());
        } else {
            assert(body@ =~= header@);
        }
        lemma_first_index(body@, ' ');
    }
    let at = find_char(body.as_slice(), ' ');
    let mut id: Vec<char> = Vec::new();
    let mut k: usize = 0;
    while k < at
        invariant
            k <= at <= body@.len(),
            id@ == body@.subrange(0, k as int),
        decreases at - k,
    {
        id.push(body[k]);
        proof {
            assert(body@.subrange(0, k + 1) =~= body@.subrange(0, k as int).push(body@[k as int]));
        }
        k = k + 1;
    }
    let desc = if at < body.len() {
        Some(suffix_string(body.as_slice(), at + 1))
    } else {
        None
    };
    Record { id: string_of(id.as_slice()), desc, seq: string_of(seq.as_slice()) }
}

/// Reads the records of the text of a FASTA file.
#[verifier::loop_isolation(false)]
pub fn parse_records(text: &str) -> (r: Vec<Record>)
    ensures
        record_views(r@) == fasta_records(text@),
{
    let capacity = count_bytes(text.as_bytes(), 62u8);
    let mut result: Vec<Record> = Vec::with_capacity(capacity);
    let chars = chars_of(text);
    let parts = split_chars(chars.as_slice(), '\n');
    let ghost ps = split_on(text@, '\n');
    let ghost lines = text_lines(text@);
    proof {
        crate::text::lemma_split_nonempty(text@, '\n');
        assert(vec_views(parts@) =~= ps);
    }
    let n: usize = if parts[parts.len() - 1].len() == 0 {
        parts.len() - 1
    } else {
        parts.len()
    };
    assert(n == lines.len());
    let mut header: Vec<char> = Vec::new();
    let mut seq: Vec<char> = Vec::new();
    let mut started = false;
    let mut stopped = false;
    let mut i: usize = 0;
    while i < n
        invariant
            i <= n,
            n == lines.len(),
            ({
                let st = read_lines(lines.subrange(0, i as int));
                &&& record_views(result@) == st.done
                &&& stopped == st.stopped
                &&& started == (st.current is Some)
                &&& started ==> st.current == Some((header@, seq@))
            }),
        decreases n - i,
    {
        let ghost next = lines.subrange(0, i + 1);
        proof {
            assert(next.drop_last() =~= lines.subrange(0, i as int));
            assert(next.last() == lines[i as int]);
        }
        let part = &parts[i];
        let mut line: Vec<char> = Vec::new();
        let m: usize = if i < parts.len() - 1 && part.len() > 0 && part[part.len() - 1] == '\r' {
            part.len() - 1
        } else {
            part.len()
        };
        let mut j: usize = 0;
        while j < m
            invariant
                j <= m <= part@.len(),
                line@ == part@.subrange(0, j as int),
            decreases m - j,
        {
            line.push(part[j]);
            proof {
                assert(part@.subrange(0, j + 1) =~= part@.subrange(0, j as int).push(
                    part@[j as int],
                ));
            }
            j = j + 1;
        }
        proof {
            assert(part@ == ps[i as int]);
            if m < part@.len() {
                assert(line@ =~= part@.drop_last());
            } else {
                assert(line@ =~= part@);
            }
            assert(line@ == lines[i as int]);
        }
        if !stopped {
            if !started {
                header = line;
                seq = Vec::new();
                started = true;
            } else if line.len() > 0 && line[0] == '>' {
                if seq.len() == 0 {
                    stopped = true;
                } else {
                    let ghost prev = result@;
                    let rec = make_record(&header, &seq);
                    result.push(rec);
                    proof {
                        assert(record_views(result@) =~= record_views(prev).push(rec@));
                    }
                    header = line;
                    seq = Vec::new();
                }
            } else {
                let mut k: usize = 0;
                let ghost before = seq@;
                while k < line.len()
                    invariant
                        k <= line@.len(),
                        seq@ == before + line@.subrange(0, k as int),
                    decreases line@.len() - k,
                {
                    seq.push(line[k]);
                    proof {
                        assert(before + line@.subrange(0, k + 1) =~= (before + line@.subrange(
                            0,
                            k as int,
                        )).push(line@[k as int]));
                    }
                    k = k + 1;
                }
                proof {
                    assert(line@.subrange(0, k as int) =~= line@);
                }
            }
        }
        i = i + 1;
    }
    proof {
        assert(lines.subrange(0, i as int) =~= lines);
    }
    if started && !stopped && seq.len() > 0 {
        let ghost prev = result@;
        let rec = make_record(&header, &seq);
        result.push(rec);
        proof {
            assert(record_views(result@) =~= record_views(prev).push(rec@));
        }
    }
    result
}

impl Record {
    /// A record from its parts.
    pub fn new(id: &str, desc: Option<&str>, seq: &str) -> (r: Self)
        ensures
            r@ == (RecordView {
                id: id@,
                desc: match desc {
                    Some(d) => Some(d@),
                    None => None,
                },
                seq: seq@,
            }),
    {
        let desc = match desc {
            Some(d) => Some(string_of(chars_of(d).as_slice())),
            None => None,
        };
        Record { id: string_of(chars_of(id).as_slice()), desc, seq: string_of(chars_of(seq).as_slice()) }
    }

    pub fn is_empty(&self) -> (r: bool)
        ensures
            r == (self@.id.len() == 0 && self@.seq.len() == 0),
    {
        self.id.as_str().is_empty() && self.seq.as_str().is_empty()
    }

    /// The length of the sequence in bytes.
    pub fn len(&self) -> (r: usize)
        ensures
            r == vstd::utf8::encode_utf8(self@.seq).len(),
    {
        self.seq.as_str().as_bytes().len()
    }

    pub fn id(&self) -> (r: &str)
        ensures
            r@ == self@.id,
    {
        self.id.as_str()
    }

    /// The bytes of the sequence.
    pub fn seq(&self) -> (r: &[u8])
        ensures
            r@ == vstd::utf8::encode_utf8(self@.seq),
    {
        self.seq.as_str().as_bytes()
    }

    pub fn desc(&self) -> (r: &Option<String>)
        ensures
            match r {
                Some(d) => self@.desc == Some(d@),
                None => self@.desc is None,
            },
    {
        &self.desc
    }

    /// The record as FASTA text: `>id desc` (or `>id`), then the sequence,
    /// each line ended by a newline.
    pub fn to_text(&self) -> (r: String)
        ensures
            r@ == seq!['>'] + self@.id + match self@.desc {
                Some(d) => seq![' '] + d,
                None => Seq::empty(),
            } + seq!['\n'] + self@.seq + seq!['\n'],
    {
        let mut out: Vec<char> = Vec::new();
        out.push('>');
        push_str(&mut out, self.id.as_str());
        match &self.desc {
            Some(d) => {
                out.push(' ');
                push_str(&mut out, d.as_str());
            },
            None => {},
        }
        out.push('\n');
        push_str(&mut out, self.seq.as_str());
        out.push('\n');
        proof {
            assert(out@ =~= seq!['>'] + self@.id + match self@.desc {
                Some(d) => seq![' '] + d,
                None => Seq::empty(),
            } + seq!['\n'] + self@.seq + seq!['\n']);
        }
        string_of(out.as_slice())
    }
}

} // verus!
