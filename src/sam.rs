//! SAM records, their CIGAR operations and the coverage they give.
use vstd::prelude::*;
use crate::text::{
    bounded_text, chars_of, decimal, digit_value, digits_value, is_digit, lemma_decimal_reads_back,
    parse_u32, parse_usize, push_decimal, push_str, split_chars, split_on, string_of, first_index, find_char, lemma_first_index,
};

verus! {

/// Alignment operations. Insertions are insertions to the reference, and
/// deletions are deletions from the reference.
#[derive(Debug, Clone, Copy, PartialEq, Eq, Structural)]
pub enum Op {
    /// `M`
    Align(usize),
    /// `I`
    Insertion(usize),
    /// `D`
    Deletion(usize),
    /// `N`
    Skipped(usize),
    /// `S`
    SoftClip(usize),
    /// `H`
    HardClip(usize),
    /// `P`
    Padding(usize),
    /// `=`
    Match(usize),
    /// `X`
    Mismatch(usize),
}

/// The operation that the one-letter code `c` stands for, with run length `n`.
pub open spec fn op_of_code(n: usize, c: char) -> Option<Op> {
    if c == 'M' {
        Some(Op::Align(n))
    } else if c == 'I' {
        Some(Op::Insertion(n))
    } else if c == 'D' {
        Some(Op::Deletion(n))
    } else if c == 'N' {
        Some(Op::Skipped(n))
    } else if c == 'S' {
        Some(Op::SoftClip(n))
    } else if c == 'H' {
        Some(Op::HardClip(n))
    } else if c == 'P' {
        Some(Op::Padding(n))
    } else if c == '=' {
        Some(Op::Match(n))
    } else if c == 'X' {
        Some(Op::Mismatch(n))
    } else {
        None
    }
}

impl Op {
    pub open spec fn code(self) -> char {
        match self {
            Op::Align(_) => 'M',
            Op::Insertion(_) => 'I',
            Op::Deletion(_) => 'D',
            Op::Skipped(_) => 'N',
            Op::SoftClip(_) => 'S',
            Op::HardClip(_) => 'H',
            Op::Padding(_) => 'P',
            Op::Match(_) => '=',
            Op::Mismatch(_) => 'X',
        }
    }

    pub open spec fn len(self) -> usize {
        match self {
            Op::Align(n) => n,
            Op::Insertion(n) => n,
            Op::Deletion(n) => n,
            Op::Skipped(n) => n,
            Op::SoftClip(n) => n,
            Op::HardClip(n) => n,
            Op::Padding(n) => n,
            Op::Match(n) => n,
            Op::Mismatch(n) => n,
        }
    }

    /// The text of one operation: its length in decimal, then its code.
    pub open spec fn text(self) -> Seq<char> {
        decimal(self.len() as nat).push(self.code())
    }

    /// Reads one operation such as `33M`: a run length, then a code.
    pub fn new(op: &str) -> (r: Option<Op>)
        ensures
            r == (if op@.len() == 0 {
                None
            } else {
                match bounded_text(op@.drop_last(), usize::MAX as nat) {
                    Some(n) => op_of_code(n as usize, op@.last()),
                    None => None,
                }
            }),
    {
        let chars = chars_of(op);
        let n = chars.len();
        if n == 0 {
            return None;
        }
        let code = chars[n - 1];
        let body = chars_slice_prefix(&chars, n - 1);
        match parse_usize(body.as_slice()) {
            Some(num) => Op::from_char(num, code),
            None => None,
        }
    }

    /// The operation for a code byte such as `b'M'`, with run length `num`.
    pub fn from(num: usize, op: u8) -> (r: Option<Op>)
        ensures
            r == op_of_code(num, op as char),
    {
        Op::from_char(num, op as char)
    }

    fn from_char(num: usize, op: char) -> (r: Option<Op>)
        ensures
            r == op_of_code(num, op),
    {
        if op == 'M' {
            Some(Op::Align(num))
        } else if op == 'I' {
            Some(Op::Insertion(num))
        } else if op == 'D' {
            Some(Op::Deletion(num))
        } else if op == 'N' {
            Some(Op::Skipped(num))
        } else if op == 'S' {
            Some(Op::SoftClip(num))
        } else if op == 'H' {
            Some(Op::HardClip(num))
        } else if op == 'P' {
            Some(Op::Padding(num))
        } else if op == '=' {
            Some(Op::Match(num))
        } else if op == 'X' {
            Some(Op::Mismatch(num))
        } else {
            None
        }
    }

    /// The run length.
    pub fn length(&self) -> (r: usize)
        ensures
            r == self.len(),
    {
        match self {
            Op::Align(n) => *n,
            Op::Insertion(n) => *n,
            Op::Deletion(n) => *n,
            Op::Skipped(n) => *n,
            Op::SoftClip(n) => *n,
            Op::HardClip(n) => *n,
            Op::Padding(n) => *n,
            Op::Match(n) => *n,
            Op::Mismatch(n) => *n,
        }
    }

    /// The one-letter code.
    pub fn code_char(&self) -> (r: char)
        ensures
            r == self.code(),
    {
        match self {
            Op::Align(_) => 'M',
            Op::Insertion(_) => 'I',
            Op::Deletion(_) => 'D',
            Op::Skipped(_) => 'N',
            Op::SoftClip(_) => 'S',
            Op::HardClip(_) => 'H',
            Op::Padding(_) => 'P',
            Op::Match(_) => '=',
            Op::Mismatch(_) => 'X',
        }
    }

    /// Appends the text of this operation.
    pub fn push_text(&self, out: &mut Vec<char>)
        ensures
            final(out)@ == old(out)@ + self.text(),
    {
        push_decimal(out, self.length() as u64);
        out.push(self.code_char());
        proof {
            assert(final(out)@ =~= old(out)@ + self.text());
        }
    }

    /// The text of this operation, such as `33M`.
    pub fn as_str(&self) -> (r: String)
        ensures
            r@ == self.text(),
    {
        let mut out: Vec<char> = Vec::new();
        self.push_text(&mut out);
        assert(out@ =~= self.text());
        string_of(out.as_slice())
    }
}

fn chars_slice_prefix(v: &Vec<char>, n: usize) -> (r: Vec<char>)
    requires
        n <= v@.len(),
    ensures
        r@ == v@.subrange(0, n as int),
{
    let mut out: Vec<char> = Vec::new();
    let mut i: usize = 0;
    while i < n
        invariant
            i <= n <= v@.len(),
            out@ == v@.subrange(0, i as int),
        decreases n - i,
    {
        out.push(v[i]);
        proof {
            assert(v@.subrange(0, i + 1) =~= v@.subrange(0, i as int).push(v@[i as int]));
        }
        i = i + 1;
    }
    out
}

/// The state of the left-to-right reading of a CIGAR string after one more
/// character: digits accumulate into a run length; any other character ends
/// the run, emits the operation its code names (none for an unknown code or
/// an empty run) and resets the run length.
pub open spec fn cigar_step(st: (Seq<Op>, nat), c: char) -> (Seq<Op>, nat) {
    if is_digit(c) {
        (st.0, st.1 * 10 + digit_value(c))
    } else if st.1 == 0 {
        (st.0, 0)
    } else {
        match op_of_code(st.1 as usize, c) {
            Some(o) => (st.0.push(o), 0),
            None => (st.0, 0),
        }
    }
}

/// The operations read from `s`, and the pending run length at its end.
pub open spec fn cigar_scan(s: Seq<char>) -> (Seq<Op>, nat)
    decreases s.len(),
{
    if s.len() == 0 {
        (Seq::<Op>::empty(), 0)
    } else {
        cigar_step(cigar_scan(s.drop_last()), s.last())
    }
}

/// Every run length met while reading `s` fits in a `usize`.
pub open spec fn cigar_fits(s: Seq<char>) -> bool {
    forall|i: int| 0 <= i <= s.len() ==> #[trigger] cigar_scan(s.subrange(0, i)).1 <= usize::MAX
}

/// The operations that a CIGAR string decodes to.
pub open spec fn decode_cigar(s: Seq<char>) -> Seq<Op> {
    cigar_scan(s).0
}

/// The run-length text of a sequence of operations, with no separators.
pub open spec fn encode_cigar(ops: Seq<Op>) -> Seq<char>
    decreases ops.len(),
{
    if ops.len() == 0 {
        Seq::<char>::empty()
    } else {
        encode_cigar(ops.drop_last()) + ops.last().text()
    }
}

/// Parse a CIGAR string: each run of digits followed by a code letter gives
/// one operation; a run followed by an unknown letter, and a run of length
/// zero, is dropped.
pub fn parse_cigar_string(cigar: &str) -> (r: Vec<Op>)
    requires
        cigar_fits(cigar@),
    ensures
        r@ == decode_cigar(cigar@),
{
    let chars = chars_of(cigar);
    let mut ops: Vec<Op> = Vec::new();
    let mut num: usize = 0;
    let mut i: usize = 0;
    while i < chars.len()
        invariant
            i <= chars@.len(),
            chars@ == cigar@,
            cigar_fits(cigar@),
            ops@ == cigar_scan(chars@.subrange(0, i as int)).0,
            num as nat == cigar_scan(chars@.subrange(0, i as int)).1,
        decreases chars@.len() - i,
    {
        let x = chars[i];
        proof {
            assert(chars@.subrange(0, i + 1).drop_last() =~= chars@.subrange(0, i as int));
            assert(cigar_scan(cigar@.subrange(0, i + 1)).1 <= usize::MAX);
        }
        if '0' <= x && x <= '9' {
            let d = (x as u32 - '0' as u32) as usize;
            num = num * 10 + d;
        } else {
            if num > 0 {
                match Op::from_char(num, x) {
                    Some(res) => ops.push(res),
                    None => {},
                }
            }
            num = 0;
        }
        i = i + 1;
    }
    proof {
        assert(chars@.subrange(0, i as int) =~= chars@);
    }
    ops
}

proof fn lemma_scan_append(a: Seq<char>, c: char)
    ensures
        cigar_scan(a.push(c)) == cigar_step(cigar_scan(a), c),
{
    assert(a.push(c).drop_last() =~= a);
}

/// Reading the decimal digits of `n` after a finished prefix leaves the
/// operations alone and the run length at `n`; no run length met on the way
/// exceeds `n`.
proof fn lemma_scan_decimal(a: Seq<char>, n: nat)
    requires
        cigar_scan(a).1 == 0,
    ensures
        cigar_scan(a + decimal(n)) == (cigar_scan(a).0, n),
        forall|i: int|
            a.len() <= i <= a.len() + decimal(n).len() ==> #[trigger] cigar_scan(
                (a + decimal(n)).subrange(0, i),
            ).1 <= n,
    decreases n,
{
    lemma_decimal_reads_back(n);
    let d = decimal(n);
    if n < 10 {
        assert(a + d =~= a.push(d[0]));
        lemma_scan_append(a, d[0]);
        assert(digits_value(d) == digits_value(d.drop_last()) * 10 + digit_value(d[0]));
        assert(d.drop_last() =~= Seq::<char>::empty());
        assert forall|i: int| a.len() <= i <= a.len() + d.len() implies #[trigger] cigar_scan(
            (a + d).subrange(0, i),
        ).1 <= n by {
            if i == a.len() {
                assert((a + d).subrange(0, i) =~= a);
            } else {
                assert((a + d).subrange(0, i) =~= a + d);
            }
        }
    } else {
        let h = decimal(n / 10);
        lemma_scan_decimal(a, n / 10);
        lemma_decimal_reads_back(n / 10);
        assert(d =~= h.push(d.last()));
        assert(a + d =~= (a + h).push(d.last()));
        lemma_scan_append(a + h, d.last());
        assert(is_digit(d.last()));
        assert(digits_value(d) == digits_value(h) * 10 + digit_value(d.last())) by {
            assert(d.drop_last() =~= h);
        }
        assert forall|i: int| a.len() <= i <= a.len() + d.len() implies #[trigger] cigar_scan(
            (a + d).subrange(0, i),
        ).1 <= n by {
            if i < a.len() + d.len() {
                assert((a + d).subrange(0, i) =~= (a + h).subrange(0, i));
                assert(cigar_scan((a + h).subrange(0, i)).1 <= n / 10);
            } else {
                assert((a + d).subrange(0, i) =~= a + d);
            }
        }
    }
}

proof fn lemma_op_of_own_code(o: Op)
    ensures
        op_of_code(o.len(), o.code()) == Some(o),
{
}

/// Decoding the text of a sequence of operations of positive length gives the
/// sequence back, every run length on the way fitting in a `usize`.
pub proof fn lemma_cigar_round_trip(ops: Seq<Op>)
    requires
        forall|i: int| 0 <= i < ops.len() ==> #[trigger] ops[i].len() > 0,
    ensures
        cigar_fits(encode_cigar(ops)),
        cigar_scan(encode_cigar(ops)).1 == 0,
        decode_cigar(encode_cigar(ops)) == ops,
    decreases ops.len(),
{
    if ops.len() > 0 {
        let pre = ops.drop_last();
        let o = ops.last();
        let a = encode_cigar(pre);
        assert forall|i: int| 0 <= i < pre.len() implies #[trigger] pre[i].len() > 0 by {
            assert(pre[i] == ops[i]);
        }
        assert(o.len() > 0);
        lemma_cigar_round_trip(pre);
        let n = o.len() as nat;
        lemma_scan_decimal(a, n);
        lemma_decimal_reads_back(n);
        let s = encode_cigar(ops);
        assert(s =~= (a + decimal(n)).push(o.code()));
        lemma_scan_append(a + decimal(n), o.code());
        assert(!is_digit(o.code()));
        lemma_op_of_own_code(o);
        assert(pre.push(o) =~= ops);
        assert forall|i: int| 0 <= i <= s.len() implies #[trigger] cigar_scan(s.subrange(0, i)).1
            <= usize::MAX by {
            if i <= a.len() {
                assert(s.subrange(0, i) =~= a.subrange(0, i));
            } else if i < s.len() {
                assert(s.subrange(0, i) =~= (a + decimal(n)).subrange(0, i));
            } else {
                assert(s.subrange(0, i) =~= s);
            }
        }
    } else {
        assert(encode_cigar(ops).subrange(0, 0) =~= Seq::<char>::empty());
    }
}


/// Entries of a coverage table: positions strictly increasing, each depth at
/// least one.
pub open spec fn depths_wf(s: Seq<(usize, u64)>) -> bool {
    &&& forall|i: int, j: int| 0 <= i < j < s.len() ==> s[i].0 < s[j].0
    &&& forall|i: int| 0 <= i < s.len() ==> #[trigger] s[i].1 >= 1
}

/// The total depth that the entries of `s` give at position `p`.
pub open spec fn depth_at(s: Seq<(usize, u64)>, p: int) -> nat
    decreases s.len(),
{
    if s.len() == 0 {
        0
    } else {
        (if s[0].0 == p {
            s[0].1 as nat
        } else {
            0
        }) + depth_at(s.drop_first(), p)
    }
}

/// At every position the two tables together stay within `u64`.
pub open spec fn sums_fit(a: Seq<(usize, u64)>, b: Seq<(usize, u64)>) -> bool {
    forall|p: int| #[trigger] depth_at(a, p) + #[trigger] depth_at(b, p) <= u64::MAX
}

/// Every position of `s` lies above `q`.
pub open spec fn all_above(s: Seq<(usize, u64)>, q: int) -> bool {
    forall|i: int| 0 <= i < s.len() ==> #[trigger] s[i].0 > q
}

/// The sorted merge of two coverage tables: a position present in one table
/// passes through, a position present in both gets the sum of the depths.
pub open spec fn merge_depths(a: Seq<(usize, u64)>, b: Seq<(usize, u64)>) -> Seq<(usize, u64)>
    decreases a.len() + b.len(),
{
    if a.len() == 0 {
        b
    } else if b.len() == 0 {
        a
    } else if a[0].0 < b[0].0 {
        seq![a[0]] + merge_depths(a.drop_first(), b)
    } else if a[0].0 > b[0].0 {
        seq![b[0]] + merge_depths(a, b.drop_first())
    } else {
        seq![(a[0].0, (a[0].1 + b[0].1) as u64)] + merge_depths(a.drop_first(), b.drop_first())
    }
}

proof fn lemma_depth_absent(s: Seq<(usize, u64)>, p: int)
    requires
        forall|i: int| 0 <= i < s.len() ==> #[trigger] s[i].0 != p,
    ensures
        depth_at(s, p) == 0,
    decreases s.len(),
{
    if s.len() > 0 {
        let t = s.drop_first();
        assert forall|i: int| 0 <= i < t.len() implies #[trigger] t[i].0 != p by {
            assert(t[i] == s[i + 1]);
        }
        lemma_depth_absent(t, p);
    }
}

proof fn lemma_wf_tail(s: Seq<(usize, u64)>)
    requires
        depths_wf(s),
        s.len() > 0,
    ensures
        depths_wf(s.drop_first()),
        all_above(s.drop_first(), s[0].0 as int),
        depth_at(s.drop_first(), s[0].0 as int) == 0,
        depth_at(s, s[0].0 as int) == s[0].1,
{
    let t = s.drop_first();
    assert forall|i: int, j: int| 0 <= i < j < t.len() implies t[i].0 < t[j].0 by {
        assert(t[i] == s[i + 1] && t[j] == s[j + 1]);
    }
    assert forall|i: int| 0 <= i < t.len() implies #[trigger] t[i].1 >= 1 by {
        assert(t[i] == s[i + 1]);
    }
    assert forall|i: int| 0 <= i < t.len() implies #[trigger] t[i].0 > s[0].0 by {
        assert(t[i] == s[i + 1]);
    }
    lemma_depth_absent(t, s[0].0 as int);
}

proof fn lemma_merge_above(a: Seq<(usize, u64)>, b: Seq<(usize, u64)>, q: int)
    requires
        all_above(a, q),
        all_above(b, q),
    ensures
        all_above(merge_depths(a, b), q),
    decreases a.len() + b.len(),
{
    if a.len() > 0 && b.len() > 0 {
        let a1 = a.drop_first();
        let b1 = b.drop_first();
        assert(all_above(a1, q)) by {
            assert forall|i: int| 0 <= i < a1.len() implies #[trigger] a1[i].0 > q by {
                assert(a1[i] == a[i + 1]);
            }
        }
        assert(all_above(b1, q)) by {
            assert forall|i: int| 0 <= i < b1.len() implies #[trigger] b1[i].0 > q by {
                assert(b1[i] == b[i + 1]);
            }
        }
        let m = merge_depths(a, b);
        if a[0].0 < b[0].0 {
            lemma_merge_above(a1, b, q);
            let r = merge_depths(a1, b);
            assert forall|i: int| 0 <= i < m.len() implies #[trigger] m[i].0 > q by {
                if i > 0 {
                    assert(m[i] == r[i - 1]);
                }
            }
        } else if a[0].0 > b[0].0 {
            lemma_merge_above(a, b1, q);
            let r = merge_depths(a, b1);
            assert forall|i: int| 0 <= i < m.len() implies #[trigger] m[i].0 > q by {
                if i > 0 {
                    assert(m[i] == r[i - 1]);
                }
            }
        } else {
            lemma_merge_above(a1, b1, q);
            let r = merge_depths(a1, b1);
            assert forall|i: int| 0 <= i < m.len() implies #[trigger] m[i].0 > q by {
                if i > 0 {
                    assert(m[i] == r[i - 1]);
                }
            }
        }
    }
}

/// A merge of well-formed tables is well formed and adds the depths.
pub proof fn lemma_merge_depths(a: Seq<(usize, u64)>, b: Seq<(usize, u64)>)
    requires
        depths_wf(a),
        depths_wf(b),
        sums_fit(a, b),
    ensures
        depths_wf(merge_depths(a, b)),
        forall|p: int| #[trigger]
            depth_at(merge_depths(a, b), p) == depth_at(a, p) + depth_at(b, p),
    decreases a.len() + b.len(),
{
    let m = merge_depths(a, b);
    if a.len() == 0 {
        assert forall|p: int| #[trigger] depth_at(m, p) == depth_at(a, p) + depth_at(b, p) by {}
    } else if b.len() == 0 {
        assert forall|p: int| #[trigger] depth_at(m, p) == depth_at(a, p) + depth_at(b, p) by {}
    } else {
        let a1 = a.drop_first();
        let b1 = b.drop_first();
        lemma_wf_tail(a);
        lemma_wf_tail(b);
        let x = m[0];
        let r = if a[0].0 < b[0].0 {
            merge_depths(a1, b)
        } else if a[0].0 > b[0].0 {
            merge_depths(a, b1)
        } else {
            merge_depths(a1, b1)
        };
        assert(m =~= seq![x] + r);
        if a[0].0 < b[0].0 {
            assert(sums_fit(a1, b)) by {
                assert forall|p: int| #[trigger] depth_at(a1, p) + #[trigger] depth_at(b, p)
                    <= u64::MAX by {
                    assert(depth_at(a, p) + depth_at(b, p) <= u64::MAX);
                }
            }
            lemma_merge_depths(a1, b);
            assert(all_above(b, a[0].0 as int)) by {
                assert forall|i: int| 0 <= i < b.len() implies #[trigger] b[i].0 > a[0].0 by {
                    if i > 0 {
                        assert(b[0].0 < b[i].0);
                    }
                }
            }
            lemma_merge_above(a1, b, a[0].0 as int);
        } else if a[0].0 > b[0].0 {
            assert(sums_fit(a, b1)) by {
                assert forall|p: int| #[trigger] depth_at(a, p) + #[trigger] depth_at(b1, p)
                    <= u64::MAX by {
                    assert(depth_at(a, p) + depth_at(b, p) <= u64::MAX);
                }
            }
            lemma_merge_depths(a, b1);
            assert(all_above(a, b[0].0 as int)) by {
                assert forall|i: int| 0 <= i < a.len() implies #[trigger] a[i].0 > b[0].0 by {
                    if i > 0 {
                        assert(a[0].0 < a[i].0);
                    }
                }
            }
            lemma_merge_above(a, b1, b[0].0 as int);
        } else {
            assert(sums_fit(a1, b1)) by {
                assert forall|p: int| #[trigger] depth_at(a1, p) + #[trigger] depth_at(b1, p)
                    <= u64::MAX by {
                    assert(depth_at(a, p) + depth_at(b, p) <= u64::MAX);
                }
            }
            lemma_merge_depths(a1, b1);
            lemma_merge_above(a1, b1, a[0].0 as int);
            assert(depth_at(a, a[0].0 as int) + depth_at(b, a[0].0 as int) <= u64::MAX);
        }
        assert(m.drop_first() =~= r);
        assert forall|i: int, j: int| 0 <= i < j < m.len() implies m[i].0 < m[j].0 by {
            if i > 0 {
                assert(m[i] == r[i - 1] && m[j] == r[j - 1]);
            } else {
                assert(m[j] == r[j - 1]);
            }
        }
        assert forall|i: int| 0 <= i < m.len() implies #[trigger] m[i].1 >= 1 by {
            if i > 0 {
                assert(m[i] == r[i - 1]);
            }
        }
        assert forall|p: int| #[trigger] depth_at(m, p) == depth_at(a, p) + depth_at(b, p) by {
            assert(depth_at(m, p) == (if x.0 == p {
                x.1 as nat
            } else {
                0
            }) + depth_at(r, p));
        }
    }
}

/// Two well-formed tables that give the same depth everywhere are equal.
pub proof fn lemma_depths_determine(x: Seq<(usize, u64)>, y: Seq<(usize, u64)>)
    requires
        depths_wf(x),
        depths_wf(y),
        forall|p: int| #[trigger] depth_at(x, p) == depth_at(y, p),
    ensures
        x == y,
    decreases x.len() + y.len(),
{
    if x.len() == 0 && y.len() == 0 {
        assert(x =~= y);
    } else if x.len() == 0 {
        lemma_wf_tail(y);
        assert(depth_at(x, y[0].0 as int) == depth_at(y, y[0].0 as int));
    } else if y.len() == 0 {
        lemma_wf_tail(x);
        assert(depth_at(x, x[0].0 as int) == depth_at(y, x[0].0 as int));
    } else {
        lemma_wf_tail(x);
        lemma_wf_tail(y);
        let px = x[0].0 as int;
        let py = y[0].0 as int;
        if px < py {
            assert forall|i: int| 0 <= i < y.len() implies #[trigger] y[i].0 != px by {
                if i > 0 {
                    assert(y[0].0 < y[i].0);
                }
            }
            lemma_depth_absent(y, px);
            assert(depth_at(x, px) == depth_at(y, px));
        } else if px > py {
            assert forall|i: int| 0 <= i < x.len() implies #[trigger] x[i].0 != py by {
                if i > 0 {
                    assert(x[0].0 < x[i].0);
                }
            }
            lemma_depth_absent(x, py);
            assert(depth_at(x, py) == depth_at(y, py));
        } else {
            assert(depth_at(x, px) == depth_at(y, px));
            let x1 = x.drop_first();
            let y1 = y.drop_first();
            assert forall|p: int| #[trigger] depth_at(x1, p) == depth_at(y1, p) by {
                assert(depth_at(x, p) == depth_at(y, p));
            }
            lemma_depths_determine(x1, y1);
            assert(x[0].1 == y[0].1);
            assert(x[0] == y[0]);
            assert(x =~= seq![x[0]] + x1);
            assert(y =~= seq![y[0]] + y1);
        }
    }
}

/// Merging coverage tables is commutative.
pub proof fn lemma_merge_commutative(a: Seq<(usize, u64)>, b: Seq<(usize, u64)>)
    requires
        depths_wf(a),
        depths_wf(b),
        sums_fit(a, b),
    ensures
        merge_depths(a, b) == merge_depths(b, a),
{
    assert(sums_fit(b, a)) by {
        assert forall|p: int| #[trigger] depth_at(b, p) + #[trigger] depth_at(a, p)
            <= u64::MAX by {
            assert(depth_at(a, p) + depth_at(b, p) <= u64::MAX);
        }
    }
    lemma_merge_depths(a, b);
    lemma_merge_depths(b, a);
    assert forall|p: int| #[trigger] depth_at(merge_depths(a, b), p) == depth_at(
        merge_depths(b, a),
        p,
    ) by {
        assert(depth_at(merge_depths(a, b), p) == depth_at(a, p) + depth_at(b, p));
        assert(depth_at(merge_depths(b, a), p) == depth_at(b, p) + depth_at(a, p));
    }
    lemma_depths_determine(merge_depths(a, b), merge_depths(b, a));
}

/// Merging coverage tables is associative, where the three depths together
/// stay within `u64` at every position.
pub proof fn lemma_merge_associative(
    a: Seq<(usize, u64)>,
    b: Seq<(usize, u64)>,
    c: Seq<(usize, u64)>,
)
    requires
        depths_wf(a),
        depths_wf(b),
        depths_wf(c),
        forall|p: int| #[trigger] depth_at(a, p) + depth_at(b, p) + depth_at(c, p) <= u64::MAX,
    ensures
        sums_fit(a, b),
        sums_fit(merge_depths(a, b), c),
        sums_fit(b, c),
        sums_fit(a, merge_depths(b, c)),
        merge_depths(merge_depths(a, b), c) == merge_depths(a, merge_depths(b, c)),
{
    assert(sums_fit(a, b)) by {
        assert forall|p: int| #[trigger] depth_at(a, p) + #[trigger] depth_at(b, p)
            <= u64::MAX by {
            assert(depth_at(a, p) + depth_at(b, p) + depth_at(c, p) <= u64::MAX);
        }
    }
    assert(sums_fit(b, c)) by {
        assert forall|p: int| #[trigger] depth_at(b, p) + #[trigger] depth_at(c, p)
            <= u64::MAX by {
            assert(depth_at(a, p) + depth_at(b, p) + depth_at(c, p) <= u64::MAX);
        }
    }
    lemma_merge_depths(a, b);
    lemma_merge_depths(b, c);
    let ab = merge_depths(a, b);
    let bc = merge_depths(b, c);
    assert(sums_fit(ab, c)) by {
        assert forall|p: int| #[trigger] depth_at(ab, p) + #[trigger] depth_at(c, p)
            <= u64::MAX by {
            assert(depth_at(a, p) + depth_at(b, p) + depth_at(c, p) <= u64::MAX);
            assert(depth_at(ab, p) == depth_at(a, p) + depth_at(b, p));
        }
    }
    assert(sums_fit(a, bc)) by {
        assert forall|p: int| #[trigger] depth_at(a, p) + #[trigger] depth_at(bc, p)
            <= u64::MAX by {
            assert(depth_at(a, p) + depth_at(b, p) + depth_at(c, p) <= u64::MAX);
            assert(depth_at(bc, p) == depth_at(b, p) + depth_at(c, p));
        }
    }
    lemma_merge_depths(ab, c);
    lemma_merge_depths(a, bc);
    assert forall|p: int| #[trigger] depth_at(merge_depths(ab, c), p) == depth_at(
        merge_depths(a, bc),
        p,
    ) by {
        assert(depth_at(ab, p) == depth_at(a, p) + depth_at(b, p));
        assert(depth_at(bc, p) == depth_at(b, p) + depth_at(c, p));
        assert(depth_at(merge_depths(ab, c), p) == depth_at(ab, p) + depth_at(c, p));
        assert(depth_at(merge_depths(a, bc), p) == depth_at(a, p) + depth_at(bc, p));
    }
    lemma_depths_determine(merge_depths(ab, c), merge_depths(a, bc));
}


/// Coverage on a contig: the depth at each covered position of one reference.
#[derive(Debug)]
pub struct Coverage {
    r_name: String,
    cov: Vec<(usize, u64)>,
}

impl Clone for Coverage {
    fn clone(&self) -> (r: Self)
        ensures
            r.name() == self.name(),
            r.depths() == self.depths(),
    {
        Coverage { r_name: self.r_name.clone(), cov: vstd::slice::slice_to_vec(self.cov.as_slice()) }
    }
}

impl Coverage {
    /// Positions strictly ascending, each depth at least one.
    pub open spec fn wf(&self) -> bool {
        depths_wf(self.depths())
    }

    /// The reference name.
    pub closed spec fn name(&self) -> Seq<char> {
        self.r_name@
    }

    /// The `(position, depth)` entries, positions ascending.
    pub closed spec fn depths(&self) -> Seq<(usize, u64)> {
        self.cov@
    }

    /// Name of the reference (or contig)
    pub fn r_name(&self) -> (r: &str)
        ensures
            r@ == self.name(),
    {
        self.r_name.as_str()
    }

    /// Get the coverage.
    pub fn cov(&self) -> (r: &[(usize, u64)])
        ensures
            r@ == self.depths(),
    {
        self.cov.as_slice()
    }

    /// Merges two coverages of one reference: a position present in one passes
    /// through, a position present in both gets the sum of the depths.
    pub fn merge(&self, cov: &Self) -> (r: Self)
        requires
            self.wf(),
            cov.wf(),
            self.name() == cov.name(),
            sums_fit(self.depths(), cov.depths()),
        ensures
            r.wf(),
            r.name() == self.name(),
            r.depths() == merge_depths(self.depths(), cov.depths()),
    {
        let a = &self.cov;
        let b = &cov.cov;
        proof {
            assert(a@.subrange(0, a@.len() as int) =~= a@);
            assert(b@.subrange(0, b@.len() as int) =~= b@);
        }
        let mut res: Vec<(usize, u64)> = Vec::new();
        let mut i: usize = 0;
        let mut j: usize = 0;
        while i < a.len() && j < b.len()
            invariant
                i <= a@.len(),
                j <= b@.len(),
                res@ + merge_depths(
                    a@.subrange(i as int, a@.len() as int),
                    b@.subrange(j as int, b@.len() as int),
                ) == merge_depths(a@, b@),
                sums_fit(
                    a@.subrange(i as int, a@.len() as int),
                    b@.subrange(j as int, b@.len() as int),
                ),
            decreases a@.len() + b@.len() - i - j,
        {
            let ghost sa = a@.subrange(i as int, a@.len() as int);
            let ghost sb = b@.subrange(j as int, b@.len() as int);
            let ghost sa1 = a@.subrange(i + 1, a@.len() as int);
            let ghost sb1 = b@.subrange(j + 1, b@.len() as int);
            proof {
                assert(sa.drop_first() =~= sa1);
                assert(sb.drop_first() =~= sb1);
                assert(sa[0] == a@[i as int]);
                assert(sb[0] == b@[j as int]);
            }
            let (s_index, s_depth) = a[i];
            let (c_index, c_depth) = b[j];
            if s_index < c_index {
                res.push((s_index, s_depth));
                i = i + 1;
                proof {
                    assert forall|p: int| #[trigger] depth_at(sa1, p) + #[trigger] depth_at(sb, p)
                        <= u64::MAX by {
                        assert(depth_at(sa, p) + depth_at(sb, p) <= u64::MAX);
                    }
                }
            } else if s_index > c_index {
                res.push((c_index, c_depth));
                j = j + 1;
                proof {
                    assert forall|p: int| #[trigger] depth_at(sa, p) + #[trigger] depth_at(sb1, p)
                        <= u64::MAX by {
                        assert(depth_at(sa, p) + depth_at(sb, p) <= u64::MAX);
                    }
                }
            } else {
                proof {
                    assert(depth_at(sa, s_index as int) + depth_at(sb, s_index as int)
                        <= u64::MAX);
                }
                res.push((s_index, s_depth + c_depth));
                i = i + 1;
                j = j + 1;
                proof {
                    assert forall|p: int| #[trigger] depth_at(sa1, p) + #[trigger] depth_at(sb1, p)
                        <= u64::MAX by {
                        assert(depth_at(sa, p) + depth_at(sb, p) <= u64::MAX);
                    }
                }
            }
            proof {
                assert(res@ + merge_depths(
                    a@.subrange(i as int, a@.len() as int),
                    b@.subrange(j as int, b@.len() as int),
                ) =~= merge_depths(a@, b@));
            }
        }
        while i < a.len()
            invariant
                i <= a@.len(),
                j <= b@.len(),
                i == a@.len() || j == b@.len(),
                res@ + merge_depths(
                    a@.subrange(i as int, a@.len() as int),
                    b@.subrange(j as int, b@.len() as int),
                ) == merge_depths(a@, b@),
            decreases a@.len() - i,
        {
            proof {
                assert(b@.subrange(j as int, b@.len() as int) =~= Seq::<(usize, u64)>::empty());
                assert(a@.subrange(i as int, a@.len() as int) =~= seq![a@[i as int]]
                    + a@.subrange(i + 1, a@.len() as int));
            }
            res.push(a[i]);
            i = i + 1;
            proof {
                assert(res@ + merge_depths(
                    a@.subrange(i as int, a@.len() as int),
                    b@.subrange(j as int, b@.len() as int),
                ) =~= merge_depths(a@, b@));
            }
        }
        while j < b.len()
            invariant
                i == a@.len(),
                j <= b@.len(),
                res@ + merge_depths(
                    a@.subrange(i as int, a@.len() as int),
                    b@.subrange(j as int, b@.len() as int),
                ) == merge_depths(a@, b@),
            decreases b@.len() - j,
        {
            proof {
                assert(a@.subrange(i as int, a@.len() as int) =~= Seq::<(usize, u64)>::empty());
                assert(b@.subrange(j as int, b@.len() as int) =~= seq![b@[j as int]]
                    + b@.subrange(j + 1, b@.len() as int));
            }
            res.push(b[j]);
            j = j + 1;
            proof {
                assert(res@ + merge_depths(
                    a@.subrange(i as int, a@.len() as int),
                    b@.subrange(j as int, b@.len() as int),
                ) =~= merge_depths(a@, b@));
            }
        }
        proof {
            assert(a@.subrange(i as int, a@.len() as int) =~= Seq::<(usize, u64)>::empty());
            assert(b@.subrange(j as int, b@.len() as int) =~= Seq::<(usize, u64)>::empty());
            assert(res@ =~= merge_depths(a@, b@));
            lemma_merge_depths(a@, b@);
        }
        Coverage { r_name: self.r_name.clone(), cov: res }
    }
}


/// Reference bases that an operation consumes.
pub open spec fn ref_consumed(o: Op) -> nat {
    match o {
        Op::Align(n) | Op::Match(n) | Op::Deletion(n) | Op::Skipped(n) | Op::Mismatch(n) => n as nat,
        _ => 0,
    }
}

/// Query bases that an operation accounts for, clips included.
pub open spec fn query_consumed(o: Op) -> nat {
    match o {
        Op::HardClip(n) | Op::SoftClip(n) | Op::Align(n) | Op::Match(n) | Op::Mismatch(n)
        | Op::Insertion(n) => n as nat,
        _ => 0,
    }
}

/// Reference bases that a sequence of operations consumes.
pub open spec fn ref_len(ops: Seq<Op>) -> nat
    decreases ops.len(),
{
    if ops.len() == 0 {
        0
    } else {
        ref_len(ops.drop_last()) + ref_consumed(ops.last())
    }
}

/// Query length that a sequence of operations accounts for, clips included.
pub open spec fn query_len(ops: Seq<Op>) -> nat
    decreases ops.len(),
{
    if ops.len() == 0 {
        0
    } else {
        query_len(ops.drop_last()) + query_consumed(ops.last())
    }
}

/// The depth-one entries that one operation at reference cursor `c` gives:
/// one per base of a match run, none otherwise.
pub open spec fn run_coverage(o: Op, c: int) -> Seq<(usize, u64)> {
    match o {
        Op::Align(n) | Op::Match(n) => Seq::new(n as nat, |i: int| ((c + i) as usize, 1u64)),
        _ => Seq::empty(),
    }
}

/// The coverage entries of an alignment whose operations start at reference
/// position `start`.
pub open spec fn coverage_of(ops: Seq<Op>, start: int) -> Seq<(usize, u64)>
    decreases ops.len(),
{
    if ops.len() == 0 {
        Seq::empty()
    } else {
        coverage_of(ops.drop_last(), start) + run_coverage(
            ops.last(),
            start + ref_len(ops.drop_last()),
        )
    }
}

/// The coverage that a record gives: none for an unmapped record (mapped
/// position 0), else that of its operations from its mapped position.
pub open spec fn record_coverage(rec: RecordView) -> Seq<(usize, u64)> {
    if rec.pos == 0 {
        Seq::empty()
    } else {
        coverage_of(decode_cigar(rec.cigar), rec.pos as int)
    }
}

proof fn lemma_ref_len_prefix(ops: Seq<Op>, k: int)
    requires
        0 <= k <= ops.len(),
    ensures
        ref_len(ops.subrange(0, k)) <= ref_len(ops),
    decreases ops.len() - k,
{
    if k < ops.len() {
        lemma_ref_len_prefix(ops, k + 1);
        assert(ops.subrange(0, k + 1).drop_last() =~= ops.subrange(0, k));
    } else {
        assert(ops.subrange(0, k) =~= ops);
    }
}

proof fn lemma_query_len_prefix(ops: Seq<Op>, k: int)
    requires
        0 <= k <= ops.len(),
    ensures
        query_len(ops.subrange(0, k)) <= query_len(ops),
    decreases ops.len() - k,
{
    if k < ops.len() {
        lemma_query_len_prefix(ops, k + 1);
        assert(ops.subrange(0, k + 1).drop_last() =~= ops.subrange(0, k));
    } else {
        assert(ops.subrange(0, k) =~= ops);
    }
}

/// The characters of each string.
pub open spec fn string_views(v: Seq<String>) -> Seq<Seq<char>> {
    v.map_values(|a: String| a@)
}

/// Error raised when parsing of a SAM record fails
#[derive(Debug, Clone, Copy)]
pub struct ParseSamError {}

/// The fields of a SAM record, as the contracts speak of them.
pub ghost struct RecordView {
    pub q_name: Seq<char>,
    pub flag: u32,
    pub r_name: Seq<char>,
    pub pos: usize,
    pub mapq: usize,
    pub cigar: Seq<char>,
    pub rnext: Seq<char>,
    pub pnext: usize,
    pub tlen: usize,
    pub seq: Seq<char>,
    pub qual: Seq<u8>,
    pub attr: Seq<Seq<char>>,
}

/// SAM Record. A record is read from one line of a SAM file by
/// [`Record::from_line`].
#[derive(Debug)]
pub struct Record {
    q_name: String,
    flag: u32,
    r_name: String,
    pos: usize,
    mapq: usize,
    cigar: String,
    rnext: String,
    pnext: usize,
    tlen: usize,
    seq: String,
    qual: Vec<u8>,
    attr: Vec<String>,
}

impl Clone for Record {
    fn clone(&self) -> (r: Self)
        ensures
            r@ == self@,
    {
        let mut attr: Vec<String> = Vec::new();
        let mut k: usize = 0;
        while k < self.attr.len()
            invariant
                k <= self.attr@.len(),
                attr@ == self.attr@.subrange(0, k as int),
            decreases self.attr@.len() - k,
        {
            attr.push(self.attr[k].clone());
            proof {
                assert(attr@ =~= self.attr@.subrange(0, k + 1));
            }
            k = k + 1;
        }
        proof {
            assert(attr@ =~= self.attr@);
        }
        Record {
            q_name: self.q_name.clone(),
            flag: self.flag,
            r_name: self.r_name.clone(),
            pos: self.pos,
            mapq: self.mapq,
            cigar: self.cigar.clone(),
            rnext: self.rnext.clone(),
            pnext: self.pnext,
            tlen: self.tlen,
            seq: self.seq.clone(),
            qual: vstd::slice::slice_to_vec(self.qual.as_slice()),
            attr,
        }
    }
}

impl View for Record {
    type V = RecordView;

    closed spec fn view(&self) -> RecordView {
        RecordView {
            q_name: self.q_name@,
            flag: self.flag,
            r_name: self.r_name@,
            pos: self.pos,
            mapq: self.mapq,
            cigar: self.cigar@,
            rnext: self.rnext@,
            pnext: self.pnext,
            tlen: self.tlen,
            seq: self.seq@,
            qual: self.qual@,
            attr: string_views(self.attr@),
        }
    }
}

/// A CIGAR string that can be read, with the alignment's reference and query
/// extents fitting in a `usize` from reference position `pos` on.
pub open spec fn cigar_usable(cigar: Seq<char>, pos: usize) -> bool {
    &&& cigar_fits(cigar)
    &&& pos + ref_len(decode_cigar(cigar)) <= usize::MAX
    &&& query_len(decode_cigar(cigar)) <= usize::MAX
}

/// A quality character: printable ASCII, stored less 33.
pub open spec fn qual_char_ok(c: char) -> bool {
    '!' <= c && c <= '~'
}

pub open spec fn qual_of(s: Seq<char>) -> Seq<u8> {
    Seq::new(s.len(), |i: int| (s[i] as u32 - 33) as u8)
}

/// Whether the tab-separated fields `f` make a SAM record.
pub open spec fn sam_fields_ok(f: Seq<Seq<char>>) -> bool {
    &&& f.len() >= 12
    &&& bounded_text(f[1], u32::MAX as nat) is Some
    &&& bounded_text(f[3], usize::MAX as nat) is Some
    &&& bounded_text(f[4], usize::MAX as nat) is Some
    &&& bounded_text(f[7], usize::MAX as nat) is Some
    &&& bounded_text(f[8], usize::MAX as nat) is Some
    &&& forall|i: int| 0 <= i < f[10].len() ==> qual_char_ok(#[trigger] f[10][i])
    &&& cigar_usable(f[5], bounded_text(f[3], usize::MAX as nat)->0 as usize)
}

/// The record that the fields `f` make, where [`sam_fields_ok`] holds.
pub open spec fn sam_record_of(f: Seq<Seq<char>>) -> RecordView {
    RecordView {
        q_name: f[0],
        flag: bounded_text(f[1], u32::MAX as nat)->0 as u32,
        r_name: f[2],
        pos: bounded_text(f[3], usize::MAX as nat)->0 as usize,
        mapq: bounded_text(f[4], usize::MAX as nat)->0 as usize,
        cigar: f[5],
        rnext: f[6],
        pnext: bounded_text(f[7], usize::MAX as nat)->0 as usize,
        tlen: bounded_text(f[8], usize::MAX as nat)->0 as usize,
        seq: f[9],
        qual: qual_of(f[10]),
        attr: f.subrange(11, f.len() as int),
    }
}

fn qual_from_chars(s: &[char]) -> (r: Option<Vec<u8>>)
    ensures
        match r {
            Some(q) => (forall|i: int| 0 <= i < s@.len() ==> qual_char_ok(#[trigger] s@[i]))
                && q@ == qual_of(s@),
            None => !(forall|i: int| 0 <= i < s@.len() ==> qual_char_ok(#[trigger] s@[i])),
        },
{
    let mut q: Vec<u8> = Vec::new();
    let mut i: usize = 0;
    while i < s.len()
        invariant
            i <= s@.len(),
            forall|k: int| 0 <= k < i ==> qual_char_ok(#[trigger] s@[k]),
            q@ =~= qual_of(s@.subrange(0, i as int)),
        decreases s@.len() - i,
    {
        let c = s[i];
        if !('!' <= c && c <= '~') {
            return None;
        }
        q.push((c as u32 - 33) as u8);
        i = i + 1;
    }
    assert(s@.subrange(0, i as int) =~= s@);
    Some(q)
}

impl Record {
    /// The record's well-formedness: its CIGAR string can be read and its
    /// extents fit in a `usize`.
    pub open spec fn wf(&self) -> bool {
        &&& cigar_usable(self@.cigar, self@.pos)
        &&& forall|i: int| 0 <= i < self@.qual.len() ==> #[trigger] self@.qual[i] <= 93
    }

    /// The operations of the record's CIGAR string.
    pub open spec fn ops(&self) -> Seq<Op> {
        decode_cigar(self@.cigar)
    }

    /// Reads a record from one tab-separated SAM line: eleven mandatory
    /// fields, then the attributes (at least one).
    pub fn from_line(input: &str) -> (r: Result<Record, ParseSamError>)
        ensures
            match r {
                Ok(rec) => sam_fields_ok(split_on(input@, '\t')) && rec@ == sam_record_of(
                    split_on(input@, '\t'),
                ) && rec.wf(),
                Err(_) => !sam_fields_ok(split_on(input@, '\t')),
            },
    {
        let line = chars_of(input);
        let f = split_chars(line.as_slice(), '\t');
        let ghost fs = split_on(input@, '\t');
        if f.len() < 12 {
            return Err(ParseSamError {});
        }
        let flag = match parse_u32(f[1].as_slice()) {
            Some(v) => v,
            None => return Err(ParseSamError {}),
        };
        let pos = match parse_usize(f[3].as_slice()) {
            Some(v) => v,
            None => return Err(ParseSamError {}),
        };
        let mapq = match parse_usize(f[4].as_slice()) {
            Some(v) => v,
            None => return Err(ParseSamError {}),
        };
        let pnext = match parse_usize(f[7].as_slice()) {
            Some(v) => v,
            None => return Err(ParseSamError {}),
        };
        let tlen = match parse_usize(f[8].as_slice()) {
            Some(v) => v,
            None => return Err(ParseSamError {}),
        };
        let qual = match qual_from_chars(f[10].as_slice()) {
            Some(q) => q,
            None => return Err(ParseSamError {}),
        };
        let cigar = string_of(f[5].as_slice());
        if !cigar_check(&cigar, pos) {
            return Err(ParseSamError {});
        }
        let mut attr: Vec<String> = Vec::new();
        let mut k: usize = 11;
        while k < f.len()
            invariant
                11 <= k <= f@.len(),
                f@.len() == fs.len(),
                forall|i: int| 0 <= i < f@.len() ==> (#[trigger] f@[i])@ == fs[i],
                string_views(attr@) =~= fs.subrange(11, k as int),
            decreases f@.len() - k,
        {
            let a = string_of(f[k].as_slice());
            let ghost prev = attr@;
            attr.push(a);
            proof {
                assert(attr@ == prev.push(a));
                let m = string_views(attr@);
                assert(string_views(prev).len() == prev.len());
                assert(fs.subrange(11, k as int).len() == k - 11);
                assert(m.len() == attr@.len());
                assert(m.len() == k + 1 - 11);
                assert forall|t: int| 0 <= t < m.len() implies m[t] == fs.subrange(
                    11,
                    k + 1,
                )[t] by {
                    if t < prev.len() {
                        assert(m[t] == string_views(prev)[t]);
                    }
                }
                assert(m =~= fs.subrange(11, k + 1));
            }
            k = k + 1;
        }
        let rec = Record {
            q_name: string_of(f[0].as_slice()),
            flag,
            r_name: string_of(f[2].as_slice()),
            pos,
            mapq,
            cigar,
            rnext: string_of(f[6].as_slice()),
            pnext,
            tlen,
            seq: string_of(f[9].as_slice()),
            qual,
            attr,
        };
        proof {
            assert(rec@ =~= sam_record_of(fs));
        }
        Ok(rec)
    }

    /// Convert this record into the coverage it gives on its reference: depth
    /// one at each base of a match run, the cursor starting at the mapped
    /// position. An unmapped record (mapped position 0) gives none.
    pub fn to_coverage(&self) -> (r: Coverage)
        requires
            self.wf(),
        ensures
            r.wf(),
            r.name() == self@.r_name,
            r.depths() == record_coverage(self@),
            self@.pos == 0 ==> r.depths().len() == 0,
            self@.pos != 0 ==> r.depths() == coverage_of(self.ops(), self@.pos as int),
            forall|i: int| 0 <= i < r.depths().len() ==> #[trigger] r.depths()[i].1 == 1,
            forall|i: int|
                0 <= i < r.depths().len() ==> self@.pos <= #[trigger] r.depths()[i].0 < self@.pos
                    + ref_len(self.ops()),
    {
        if self.pos == 0 {
            return Coverage { r_name: self.r_name.clone(), cov: Vec::new() };
        }
        let ops = self.cigar();
        let ghost all = ops@;
        let mut cov: Vec<(usize, u64)> = Vec::new();
        let mut start: usize = self.pos;
        let mut k: usize = 0;
        while k < ops.len()
            invariant
                k <= ops@.len(),
                all == ops@,
                all == self.ops(),
                self.pos + ref_len(all) <= usize::MAX,
                start == self.pos + ref_len(all.subrange(0, k as int)),
                cov@ == coverage_of(all.subrange(0, k as int), self.pos as int),
                depths_wf(cov@),
                forall|i: int| 0 <= i < cov@.len() ==> #[trigger] cov@[i].1 == 1,
                forall|i: int| 0 <= i < cov@.len() ==> self.pos <= #[trigger] cov@[i].0 < start,
            decreases ops@.len() - k,
        {
            let ghost pre = all.subrange(0, k as int);
            let ghost next = all.subrange(0, k + 1);
            proof {
                assert(next.drop_last() =~= pre);
                lemma_ref_len_prefix(all, k + 1);
            }
            let ghost before = cov@;
            match ops[k] {
                Op::Align(b) | Op::Match(b) => {
                    let mut i: usize = 0;
                    while i < b
                        invariant
                            i <= b,
                            start + b <= usize::MAX,
                            cov@ == before + Seq::new(
                                i as nat,
                                |t: int| ((start + t) as usize, 1u64),
                            ),
                            depths_wf(cov@),
                            forall|t: int| 0 <= t < cov@.len() ==> #[trigger] cov@[t].1 == 1,
                            forall|t: int|
                                0 <= t < cov@.len() ==> self.pos <= #[trigger] cov@[t].0 < start
                                    + i,
                            self.pos <= start,
                        decreases b - i,
                    {
                        cov.push((start + i, 1));
                        proof {
                            assert(before + Seq::new(
                                (i + 1) as nat,
                                |t: int| ((start + t) as usize, 1u64),
                            ) =~= (before + Seq::new(
                                i as nat,
                                |t: int| ((start + t) as usize, 1u64),
                            )).push(((start + i) as usize, 1u64)));
                        }
                        i = i + 1;
                    }
                    start = start + b;
                },
                Op::Deletion(b) | Op::Skipped(b) | Op::Mismatch(b) => {
                    start = start + b;
                },
                _ => {},
            }
            proof {
                assert(cov@ =~= coverage_of(next, self.pos as int));
            }
            k = k + 1;
        }
        proof {
            assert(all.subrange(0, k as int) =~= all);
        }
        Coverage { r_name: self.r_name.clone(), cov }
    }

    pub fn q_name(&self) -> (r: &str)
        ensures
            r@ == self@.q_name,
    {
        self.q_name.as_str()
    }

    pub fn r_name(&self) -> (r: &str)
        ensures
            r@ == self@.r_name,
    {
        self.r_name.as_str()
    }

    pub fn ref_name(&self) -> (r: &str)
        ensures
            r@ == self@.r_name,
    {
        self.r_name.as_str()
    }

    pub fn mapq(&self) -> (r: usize)
        ensures
            r == self@.mapq,
    {
        self.mapq
    }

    /// Neither secondary (0x100) nor supplementary (0x800).
    pub fn is_primary(&self) -> (r: bool)
        ensures
            r == (self@.flag & 0x900 == 0),
    {
        (self.flag & 0x900) == 0
    }

    /// The reverse-complement bit (0x10) is clear.
    pub fn is_template(&self) -> (r: bool)
        ensures
            r == (self@.flag & 0x10 != 0x10),
    {
        (self.flag & 0x10) != 0x10
    }

    /// The reverse-complement bit (0x10) is clear.
    pub fn is_forward(&self) -> (r: bool)
        ensures
            r == (self@.flag & 0x10 != 0x10),
    {
        (self.flag & 0x10) != 0x10
    }

    pub fn flag(&self) -> (r: u32)
        ensures
            r == self@.flag,
    {
        self.flag
    }

    pub fn seq(&self) -> (r: &str)
        ensures
            r@ == self@.seq,
    {
        self.seq.as_str()
    }

    /// Mapped position (1-based)
    pub fn pos(&self) -> (r: usize)
        ensures
            r == self@.pos,
    {
        self.pos
    }

    /// Parse and return the Cigar string.
    pub fn cigar(&self) -> (r: Vec<Op>)
        requires
            self.wf(),
        ensures
            r@ == self.ops(),
    {
        parse_cigar_string(self.cigar.as_str())
    }

    /// The CIGAR string as it was read.
    pub fn cigar_as_str(&self) -> (r: &str)
        ensures
            r@ == self@.cigar,
    {
        self.cigar.as_str()
    }

    /// Attributes of this record. Usually, each element is formatted as
    /// "[TAG_NAME]:[TAG_TYPE]:[TAG_VALUE]".
    pub fn attr(&self) -> (r: &[String])
        ensures
            string_views(r@) == self@.attr,
    {
        self.attr.as_slice()
    }
}

fn cigar_check(cigar: &String, pos: usize) -> (r: bool)
    ensures
        r == cigar_usable(cigar@, pos),
{
    let chars = chars_of(cigar.as_str());
    let mut num: usize = 0;
    let mut i: usize = 0;
    let ghost mut ops: Seq<Op> = Seq::empty();
    while i < chars.len()
        invariant
            i <= chars@.len(),
            chars@ == cigar@,
            forall|k: int| 0 <= k <= i ==> #[trigger] cigar_scan(cigar@.subrange(0, k)).1
                <= usize::MAX,
            num as nat == cigar_scan(chars@.subrange(0, i as int)).1,
        decreases chars@.len() - i,
    {
        let x = chars[i];
        proof {
            assert(chars@.subrange(0, i + 1).drop_last() =~= chars@.subrange(0, i as int));
        }
        if '0' <= x && x <= '9' {
            let d = (x as u32 - '0' as u32) as usize;
            if num > (usize::MAX - d) / 10 {
                proof {
                    assert(num * 10 + d > usize::MAX) by (nonlinear_arith)
                        requires
                            num > (usize::MAX - d) / 10,
                            d <= 9,
                    ;
                    assert(cigar_scan(cigar@.subrange(0, i + 1)).1 > usize::MAX);
                }
                return false;
            }
            num = num * 10 + d;
        } else {
            num = 0;
        }
        i = i + 1;
    }
    proof {
        assert(chars@.subrange(0, i as int) =~= chars@);
    }
    let ops = parse_cigar_string(cigar.as_str());
    let mut rl: usize = 0;
    let mut ql: usize = 0;
    let mut k: usize = 0;
    while k < ops.len()
        invariant
            k <= ops@.len(),
            ops@ == decode_cigar(cigar@),
            rl == ref_len(ops@.subrange(0, k as int)),
            ql == query_len(ops@.subrange(0, k as int)),
            pos + rl <= usize::MAX,
        decreases ops@.len() - k,
    {
        proof {
            assert(ops@.subrange(0, k + 1).drop_last() =~= ops@.subrange(0, k as int));
            lemma_ref_len_prefix(ops@, k + 1);
            lemma_query_len_prefix(ops@, k + 1);
        }
        let o = ops[k];
        let n = o.length();
        match o {
            Op::Align(_) | Op::Match(_) | Op::Deletion(_) | Op::Skipped(_) | Op::Mismatch(_) => {
                if n > usize::MAX - pos - rl {
                    return false;
                }
                rl = rl + n;
            },
            _ => {},
        }
        match o {
            Op::HardClip(_) | Op::SoftClip(_) | Op::Align(_) | Op::Match(_) | Op::Mismatch(_)
            | Op::Insertion(_) => {
                if n > usize::MAX - ql {
                    return false;
                }
                ql = ql + n;
            },
            _ => {},
        }
        k = k + 1;
    }
    proof {
        assert(ops@.subrange(0, k as int) =~= ops@);
    }
    true
}


/// Lexicographic order on names, character by character.
pub open spec fn name_lt(a: Seq<char>, b: Seq<char>) -> bool
    decreases a.len(),
{
    if a.len() == 0 {
        b.len() > 0
    } else if b.len() == 0 {
        false
    } else if a[0] != b[0] {
        a[0] < b[0]
    } else {
        name_lt(a.drop_first(), b.drop_first())
    }
}

proof fn lemma_name_lt_irreflexive(a: Seq<char>)
    ensures
        !name_lt(a, a),
    decreases a.len(),
{
    if a.len() > 0 {
        lemma_name_lt_irreflexive(a.drop_first());
    }
}

proof fn lemma_name_lt_total(a: Seq<char>, b: Seq<char>)
    ensures
        a != b ==> (name_lt(a, b) || name_lt(b, a)),
        !(name_lt(a, b) && name_lt(b, a)),
    decreases a.len(),
{
    if a.len() > 0 && b.len() > 0 {
        lemma_name_lt_total(a.drop_first(), b.drop_first());
        if a[0] == b[0] && a.drop_first() == b.drop_first() {
            assert(a =~= seq![a[0]] + a.drop_first());
            assert(b =~= seq![b[0]] + b.drop_first());
        }
    } else if a.len() == 0 && b.len() == 0 {
        assert(a =~= b);
    }
}

proof fn lemma_name_lt_transitive(a: Seq<char>, b: Seq<char>, c: Seq<char>)
    requires
        name_lt(a, b),
        name_lt(b, c),
    ensures
        name_lt(a, c),
    decreases a.len(),
{
    if a.len() > 0 && b.len() > 0 && c.len() > 0 {
        if a[0] == b[0] && b[0] == c[0] {
            lemma_name_lt_transitive(a.drop_first(), b.drop_first(), c.drop_first());
        }
    }
}

/// Compares two names in the order of [`name_lt`].
fn name_cmp(a: &Vec<char>, b: &Vec<char>) -> (r: i8)
    ensures
        r < 0 <==> name_lt(a@, b@),
        r == 0 <==> a@ == b@,
        r > 0 <==> name_lt(b@, a@),
{
    let mut i: usize = 0;
    proof {
        assert(a@.subrange(0, a@.len() as int) =~= a@);
        assert(b@.subrange(0, b@.len() as int) =~= b@);
        lemma_name_lt_total(a@, b@);
    }
    while i < a.len() && i < b.len()
        invariant
            i <= a@.len(),
            i <= b@.len(),
            a@.subrange(0, i as int) == b@.subrange(0, i as int),
            name_lt(a@, b@) == name_lt(
                a@.subrange(i as int, a@.len() as int),
                b@.subrange(i as int, b@.len() as int),
            ),
            name_lt(b@, a@) == name_lt(
                b@.subrange(i as int, b@.len() as int),
                a@.subrange(i as int, a@.len() as int),
            ),
        decreases a@.len() - i,
    {
        let ghost sa = a@.subrange(i as int, a@.len() as int);
        let ghost sb = b@.subrange(i as int, b@.len() as int);
        proof {
            assert(sa[0] == a@[i as int]);
            assert(sb[0] == b@[i as int]);
        }
        if a[i] < b[i] {
            return -1;
        }
        if a[i] > b[i] {
            return 1;
        }
        proof {
            assert(sa.drop_first() =~= a@.subrange(i + 1, a@.len() as int));
            assert(sb.drop_first() =~= b@.subrange(i + 1, b@.len() as int));
            assert(a@.subrange(0, i + 1) =~= a@.subrange(0, i as int).push(a@[i as int]));
            assert(b@.subrange(0, i + 1) =~= b@.subrange(0, i as int).push(b@[i as int]));
        }
        i = i + 1;
    }
    proof {
        let sa = a@.subrange(i as int, a@.len() as int);
        let sb = b@.subrange(i as int, b@.len() as int);
        if i == a@.len() && i == b@.len() {
            assert(a@ =~= a@.subrange(0, i as int));
            assert(b@ =~= b@.subrange(0, i as int));
        }
        if i == a@.len() && i < b@.len() {
            assert(a@ != b@) by {
                assert(a@.len() != b@.len());
            }
        }
        if i < a@.len() && i == b@.len() {
            assert(a@ != b@) by {
                assert(a@.len() != b@.len());
            }
        }
    }
    if a.len() == b.len() {
        0
    } else if a.len() < b.len() {
        -1
    } else {
        1
    }
}

/// The coverage that the records named `name` give together: each record's
/// coverage merged in, in order.
pub open spec fn total_coverage(records: Seq<Record>, name: Seq<char>) -> Seq<(usize, u64)>
    decreases records.len(),
{
    if records.len() == 0 {
        Seq::empty()
    } else {
        let prev = total_coverage(records.drop_last(), name);
        let last = records.last();
        if last@.r_name == name {
            merge_depths(prev, record_coverage(last@))
        } else {
            prev
        }
    }
}

proof fn lemma_total_absent(records: Seq<Record>, name: Seq<char>)
    requires
        forall|k: int| 0 <= k < records.len() ==> (#[trigger] records[k])@.r_name != name,
    ensures
        total_coverage(records, name) == Seq::<(usize, u64)>::empty(),
    decreases records.len(),
{
    if records.len() > 0 {
        let pre = records.drop_last();
        assert forall|k: int| 0 <= k < pre.len() implies (#[trigger] pre[k])@.r_name != name by {
            assert(pre[k] == records[k]);
        }
        lemma_total_absent(pre, name);
    }
}

proof fn lemma_depth_one(s: Seq<(usize, u64)>, p: int)
    requires
        depths_wf(s),
        forall|i: int| 0 <= i < s.len() ==> #[trigger] s[i].1 == 1,
    ensures
        depth_at(s, p) <= 1,
    decreases s.len(),
{
    if s.len() > 0 {
        lemma_wf_tail(s);
        let t = s.drop_first();
        if s[0].0 == p {
            assert forall|i: int| 0 <= i < t.len() implies #[trigger] t[i].0 != p by {
                assert(t[i] == s[i + 1]);
            }
            lemma_depth_absent(t, p);
        } else {
            assert forall|i: int| 0 <= i < t.len() implies #[trigger] t[i].1 == 1 by {
                assert(t[i] == s[i + 1]);
            }
            lemma_depth_one(t, p);
        }
    }
}

/// The index of the entry of `acc` named `name`, or where one would go.
fn search_name(acc: &Vec<Coverage>, name: &Vec<char>) -> (r: Result<usize, usize>)
    requires
        sorted_by_name(acc@),
    ensures
        match r {
            Ok(i) => i < acc@.len() && acc@[i as int].name() == name@,
            Err(i) => i <= acc@.len() && (forall|j: int| 0 <= j < i ==> name_lt(
                #[trigger] acc@[j].name(),
                name@,
            )) && (forall|j: int| i <= j < acc@.len() ==> name_lt(name@, #[trigger] acc@[j].name())),
        },
{
    let mut lo: usize = 0;
    let mut hi: usize = acc.len();
    while lo < hi
        invariant
            lo <= hi <= acc@.len(),
            forall|i: int, j: int|
                0 <= i < j < acc@.len() ==> name_lt(acc@[i].name(), acc@[j].name()),
            forall|j: int| 0 <= j < lo ==> name_lt(#[trigger] acc@[j].name(), name@),
            forall|j: int| hi <= j < acc@.len() ==> name_lt(name@, #[trigger] acc@[j].name()),
        decreases hi - lo,
    {
        let mid = lo + (hi - lo) / 2;
        let probe = chars_of(acc[mid].r_name());
        let c = name_cmp(&probe, name);
        if c == 0 {
            return Ok(mid);
        } else if c < 0 {
            proof {
                assert forall|j: int| 0 <= j < mid + 1 implies name_lt(
                    #[trigger] acc@[j].name(),
                    name@,
                ) by {
                    if j < mid {
                        lemma_name_lt_transitive(acc@[j].name(), acc@[mid as int].name(), name@);
                    }
                }
            }
            lo = mid + 1;
        } else {
            proof {
                assert forall|j: int| mid <= j < acc@.len() implies name_lt(
                    name@,
                    #[trigger] acc@[j].name(),
                ) by {
                    if j > mid {
                        lemma_name_lt_transitive(name@, acc@[mid as int].name(), acc@[j].name());
                    }
                }
            }
            hi = mid;
        }
    }
    Err(lo)
}

/// Some record among `records` is on reference `name`.
pub open spec fn named_in(records: Seq<Record>, name: Seq<char>) -> bool {
    exists|t: int| 0 <= t < records.len() && (#[trigger] records[t])@.r_name == name
}

/// Some coverage in `acc` is on reference `name`.
pub open spec fn listed(acc: Seq<Coverage>, name: Seq<char>) -> bool {
    exists|i: int| 0 <= i < acc.len() && (#[trigger] acc[i]).name() == name
}

/// Coverages sorted strictly by name.
pub open spec fn sorted_by_name(acc: Seq<Coverage>) -> bool {
    forall|i: int, j: int| 0 <= i < j < acc.len() ==> name_lt(acc[i].name(), acc[j].name())
}

/// What holds of the table after the first records have been folded in.
pub open spec fn table_of(acc: Seq<Coverage>, done: Seq<Record>) -> bool {
    &&& sorted_by_name(acc)
    &&& forall|i: int| 0 <= i < acc.len() ==> (#[trigger] acc[i]).wf()
    &&& forall|i: int, p: int|
        0 <= i < acc.len() ==> #[trigger] depth_at(acc[i].depths(), p) <= done.len()
    &&& forall|i: int|
        0 <= i < acc.len() ==> (#[trigger] acc[i]).depths() == total_coverage(done, acc[i].name())
    &&& forall|i: int| 0 <= i < acc.len() ==> named_in(done, (#[trigger] acc[i]).name())
    &&& forall|t: int| 0 <= t < done.len() ==> listed(acc, (#[trigger] done[t])@.r_name)
}

proof fn lemma_fold_new_name(
    old_acc: Seq<Coverage>,
    acc: Seq<Coverage>,
    pre: Seq<Record>,
    rec: Record,
    cov: Coverage,
    index: int,
)
    requires
        table_of(old_acc, pre),
        rec.wf(),
        cov.wf(),
        cov.name() == rec@.r_name,
        cov.depths() == record_coverage(rec@),
        forall|p: int| #[trigger] depth_at(cov.depths(), p) <= 1,
        0 <= index <= old_acc.len(),
        forall|j: int| 0 <= j < index ==> name_lt(#[trigger] old_acc[j].name(), rec@.r_name),
        forall|j: int|
            index <= j < old_acc.len() ==> name_lt(rec@.r_name, #[trigger] old_acc[j].name()),
        acc == old_acc.insert(index, cov),
    ensures
        table_of(acc, pre.push(rec)),
{
    let name = rec@.r_name;
    let next = pre.push(rec);
    assert(next.drop_last() =~= pre);
    assert forall|t: int| 0 <= t < pre.len() implies (#[trigger] pre[t])@.r_name != name by {
        if pre[t]@.r_name == name {
            assert(listed(old_acc, pre[t]@.r_name));
            let i = choose|i: int| 0 <= i < old_acc.len() && (#[trigger] old_acc[i]).name() == name;
            if i < index {
                assert(name_lt(old_acc[i].name(), name));
            } else {
                assert(name_lt(name, old_acc[i].name()));
            }
            lemma_name_lt_irreflexive(name);
        }
    }
    lemma_total_absent(pre, name);
    assert(merge_depths(Seq::empty(), cov.depths()) == cov.depths());
    assert forall|i: int, j: int| 0 <= i < j < acc.len() implies name_lt(
        acc[i].name(),
        acc[j].name(),
    ) by {
        if j < index {
            assert(acc[i] == old_acc[i] && acc[j] == old_acc[j]);
        } else if j == index {
            assert(acc[i] == old_acc[i]);
        } else if i < index {
            assert(acc[i] == old_acc[i] && acc[j] == old_acc[j - 1]);
        } else if i == index {
            assert(acc[j] == old_acc[j - 1]);
        } else {
            assert(acc[i] == old_acc[i - 1] && acc[j] == old_acc[j - 1]);
        }
    }
    assert forall|i: int| 0 <= i < acc.len() implies (#[trigger] acc[i]).wf() && acc[i].depths()
        == total_coverage(next, acc[i].name()) && named_in(next, acc[i].name()) by {
        if i == index {
            assert(next[pre.len() as int] == rec);
        } else {
            let o = if i < index {
                i
            } else {
                i - 1
            };
            assert(acc[i] == old_acc[o]);
            assert(named_in(pre, old_acc[o].name()));
            let t = choose|t: int|
                0 <= t < pre.len() && (#[trigger] pre[t])@.r_name == old_acc[o].name();
            assert(next[t] == pre[t]);
        }
    }
    assert forall|i: int, p: int| 0 <= i < acc.len() implies #[trigger] depth_at(
        acc[i].depths(),
        p,
    ) <= next.len() by {
        if i == index {
        } else if i < index {
            assert(acc[i] == old_acc[i]);
        } else {
            assert(acc[i] == old_acc[i - 1]);
        }
    }
    assert forall|t: int| 0 <= t < next.len() implies listed(acc, (#[trigger] next[t])@.r_name) by {
        if t == pre.len() {
            assert(acc[index] == cov);
        } else {
            assert(next[t] == pre[t]);
            assert(listed(old_acc, pre[t]@.r_name));
            let i = choose|i: int|
                0 <= i < old_acc.len() && (#[trigger] old_acc[i]).name() == pre[t]@.r_name;
            if i < index {
                assert(acc[i] == old_acc[i]);
            } else {
                assert(acc[i + 1] == old_acc[i]);
            }
        }
    }
}

proof fn lemma_fold_known_name(
    old_acc: Seq<Coverage>,
    acc: Seq<Coverage>,
    pre: Seq<Record>,
    rec: Record,
    cov: Coverage,
    merged: Coverage,
    index: int,
)
    requires
        table_of(old_acc, pre),
        rec.wf(),
        cov.wf(),
        cov.name() == rec@.r_name,
        cov.depths() == record_coverage(rec@),
        forall|p: int| #[trigger] depth_at(cov.depths(), p) <= 1,
        0 <= index < old_acc.len(),
        old_acc[index].name() == rec@.r_name,
        merged.wf(),
        merged.name() == rec@.r_name,
        merged.depths() == merge_depths(old_acc[index].depths(), cov.depths()),
        forall|p: int| #[trigger]
            depth_at(merged.depths(), p) == depth_at(old_acc[index].depths(), p) + depth_at(
                cov.depths(),
                p,
            ),
        acc == old_acc.update(index, merged),
    ensures
        table_of(acc, pre.push(rec)),
{
    let name = rec@.r_name;
    let next = pre.push(rec);
    assert(next.drop_last() =~= pre);
    assert forall|i: int| 0 <= i < acc.len() implies (#[trigger] acc[i]).wf() && acc[i].depths()
        == total_coverage(next, acc[i].name()) && named_in(next, acc[i].name()) by {
        if i == index {
            assert(next[pre.len() as int] == rec);
        } else {
            assert(acc[i] == old_acc[i]);
            assert(named_in(pre, old_acc[i].name()));
            let t = choose|t: int|
                0 <= t < pre.len() && (#[trigger] pre[t])@.r_name == old_acc[i].name();
            assert(next[t] == pre[t]);
            if acc[i].name() == name {
                assert(name_lt(old_acc[i].name(), old_acc[index].name()) || name_lt(
                    old_acc[index].name(),
                    old_acc[i].name(),
                ));
                lemma_name_lt_irreflexive(name);
            }
        }
    }
    assert forall|i: int, p: int| 0 <= i < acc.len() implies #[trigger] depth_at(
        acc[i].depths(),
        p,
    ) <= next.len() by {
        if i == index {
            assert(depth_at(old_acc[index].depths(), p) <= pre.len());
        } else {
            assert(acc[i] == old_acc[i]);
        }
    }
    assert forall|t: int| 0 <= t < next.len() implies listed(acc, (#[trigger] next[t])@.r_name) by {
        if t == pre.len() {
            assert(acc[index].name() == name);
        } else {
            assert(next[t] == pre[t]);
            assert(listed(old_acc, pre[t]@.r_name));
            let i = choose|i: int|
                0 <= i < old_acc.len() && (#[trigger] old_acc[i]).name() == pre[t]@.r_name;
            if i == index {
                assert(acc[i].name() == old_acc[i].name());
            } else {
                assert(acc[i] == old_acc[i]);
            }
        }
    }
}

impl Coverage {
    /// Convert SAM records into the coverages, one per reference name, sorted
    /// by name; each is the merge of the coverages of that reference's
    /// records.
    pub fn new(records: &[Record]) -> (r: Vec<Coverage>)
        requires
            forall|k: int| 0 <= k < records@.len() ==> (#[trigger] records@[k]).wf(),
        ensures
            sorted_by_name(r@),
            forall|i: int| 0 <= i < r@.len() ==> (#[trigger] r@[i]).wf(),
            forall|i: int|
                0 <= i < r@.len() ==> (#[trigger] r@[i]).depths() == total_coverage(
                    records@,
                    r@[i].name(),
                ),
            forall|i: int| 0 <= i < r@.len() ==> named_in(records@, (#[trigger] r@[i]).name()),
            forall|k: int| 0 <= k < records@.len() ==> listed(r@, (#[trigger] records@[k])@.r_name),
    {
        let mut acc: Vec<Coverage> = Vec::new();
        let mut k: usize = 0;
        proof {
            assert(records@.subrange(0, 0) =~= Seq::<Record>::empty());
        }
        while k < records.len()
            invariant
                k <= records@.len(),
                forall|t: int| 0 <= t < records@.len() ==> (#[trigger] records@[t]).wf(),
                table_of(acc@, records@.subrange(0, k as int)),
            decreases records@.len() - k,
        {
            let rec = &records[k];
            let ghost pre = records@.subrange(0, k as int);
            proof {
                assert(records@.subrange(0, k + 1) =~= pre.push(*rec));
            }
            let cov = rec.to_coverage();
            let name = chars_of(rec.r_name());
            proof {
                assert forall|p: int| #[trigger] depth_at(cov.depths(), p) <= 1 by {
                    lemma_depth_one(cov.depths(), p);
                }
            }
            let ghost old_acc = acc@;
            match search_name(&acc, &name) {
                Err(index) => {
                    acc.insert(index, cov);
                    proof {
                        lemma_fold_new_name(old_acc, acc@, pre, *rec, cov, index as int);
                    }
                },
                Ok(index) => {
                    proof {
                        assert forall|p: int| #[trigger]
                            depth_at(acc@[index as int].depths(), p) + #[trigger] depth_at(
                                cov.depths(),
                                p,
                            ) <= u64::MAX by {
                            assert(depth_at(acc@[index as int].depths(), p) <= k);
                        }
                    }
                    let merged = acc[index].merge(&cov);
                    proof {
                        lemma_merge_depths(acc@[index as int].depths(), cov.depths());
                    }
                    acc[index] = merged;
                    proof {
                        lemma_fold_known_name(
                            old_acc,
                            acc@,
                            pre,
                            *rec,
                            cov,
                            merged,
                            index as int,
                        );
                    }
                },
            }
            k = k + 1;
        }
        proof {
            assert(records@.subrange(0, k as int) =~= records@);
        }
        acc
    }
}


/// The state of the walk that finds the query's aligned region: clips before
/// the first aligned operation, aligned query bases, clips after it, and
/// whether the walk is still before it.
pub open spec fn region_walk(ops: Seq<Op>) -> (nat, nat, nat, bool)
    decreases ops.len(),
{
    if ops.len() == 0 {
        (0, 0, 0, true)
    } else {
        let st = region_walk(ops.drop_last());
        match ops.last() {
            Op::HardClip(b) | Op::SoftClip(b) => if st.3 {
                (st.0 + b as nat, st.1, st.2, st.3)
            } else {
                (st.0, st.1, st.2 + b as nat, st.3)
            },
            Op::Align(b) | Op::Insertion(b) | Op::Match(b) | Op::Mismatch(b) => (
                st.0,
                st.1 + b as nat,
                st.2,
                false,
            ),
            _ => st,
        }
    }
}

proof fn lemma_region_walk_bound(ops: Seq<Op>)
    ensures
        region_walk(ops).0 + region_walk(ops).1 + region_walk(ops).2 == query_len(ops),
    decreases ops.len(),
{
    if ops.len() > 0 {
        lemma_region_walk_bound(ops.drop_last());
    }
}

/// The text of the qualities: each stored value plus 33.
pub open spec fn qual_text(q: Seq<u8>) -> Seq<char> {
    Seq::new(q.len(), |i: int| ((q[i] + 33) as u8) as char)
}

/// The tab-separated text of several strings.
pub open spec fn joined_by_tab(v: Seq<Seq<char>>) -> Seq<char>
    decreases v.len(),
{
    if v.len() == 0 {
        Seq::empty()
    } else if v.len() == 1 {
        v[0]
    } else {
        joined_by_tab(v.drop_last()) + seq!['\t'] + v.last()
    }
}

/// The line of a record: the eleven mandatory fields, then the attributes.
pub open spec fn record_text(r: RecordView) -> Seq<char> {
    r.q_name + seq!['\t'] + decimal(r.flag as nat) + seq!['\t'] + r.r_name + seq!['\t'] + decimal(
        r.pos as nat,
    ) + seq!['\t'] + decimal(r.mapq as nat) + seq!['\t'] + r.cigar + seq!['\t'] + r.rnext + seq![
        '\t',
    ] + decimal(r.pnext as nat) + seq!['\t'] + decimal(r.tlen as nat) + seq!['\t'] + r.seq + seq![
        '\t',
    ] + qual_text(r.qual) + if r.attr.len() == 0 {
        Seq::empty()
    } else {
        seq!['\t'] + joined_by_tab(r.attr)
    }
}

impl Record {
    /// Return the mapping region with respect to the query (0-based): from
    /// the end of the head clips to the end of the aligned query bases.
    pub fn query_aligned_region(&self) -> (r: (usize, usize))
        requires
            self.wf(),
        ensures
            r.0 == region_walk(self.ops()).0,
            r.1 == region_walk(self.ops()).0 + region_walk(self.ops()).1,
    {
        let ops = self.cigar();
        let ghost all = ops@;
        proof {
            lemma_region_walk_bound(all);
        }
        let mut head: usize = 0;
        let mut middle: usize = 0;
        let mut tail: usize = 0;
        let mut before = true;
        let mut k: usize = 0;
        while k < ops.len()
            invariant
                k <= all.len(),
                all == ops@,
                query_len(all) <= usize::MAX,
                (head as nat, middle as nat, tail as nat, before) == region_walk(
                    all.subrange(0, k as int),
                ),
            decreases all.len() - k,
        {
            proof {
                assert(all.subrange(0, k + 1).drop_last() =~= all.subrange(0, k as int));
                lemma_query_len_prefix(all, k + 1);
                lemma_region_walk_bound(all.subrange(0, k + 1));
            }
            match ops[k] {
                Op::HardClip(b) | Op::SoftClip(b) => {
                    if before {
                        head = head + b;
                    } else {
                        tail = tail + b;
                    }
                },
                Op::Align(b) | Op::Insertion(b) | Op::Match(b) | Op::Mismatch(b) => {
                    middle = middle + b;
                    before = false;
                },
                _ => {},
            }
            k = k + 1;
        }
        proof {
            assert(all.subrange(0, k as int) =~= all);
        }
        (head, head + middle)
    }

    /// Return the mapping region with respect to the reference (0-based),
    /// `(0, 0)` for an unmapped record.
    pub fn refr_aligned_region(&self) -> (r: (usize, usize))
        requires
            self.wf(),
        ensures
            self@.pos == 0 ==> r == (0usize, 0usize),
            self@.pos != 0 ==> r.0 == self@.pos - 1 && r.1 == self@.pos + ref_len(self.ops()) - 1,
    {
        let start = self.pos;
        if start == 0 {
            return (0, 0);
        }
        let len = self.ref_length();
        (start - 1, start + len - 1)
    }

    /// Reference bases that the alignment consumes.
    fn ref_length(&self) -> (r: usize)
        requires
            self.wf(),
        ensures
            r == ref_len(self.ops()),
    {
        let ops = self.cigar();
        let ghost all = ops@;
        let mut len: usize = 0;
        let mut k: usize = 0;
        while k < ops.len()
            invariant
                k <= all.len(),
                all == ops@,
                self.pos + ref_len(all) <= usize::MAX,
                len == ref_len(all.subrange(0, k as int)),
            decreases all.len() - k,
        {
            proof {
                assert(all.subrange(0, k + 1).drop_last() =~= all.subrange(0, k as int));
                lemma_ref_len_prefix(all, k + 1);
            }
            match ops[k] {
                Op::Align(b) | Op::Match(b) | Op::Deletion(b) | Op::Skipped(b) | Op::Mismatch(b) => {
                    len = len + b;
                },
                _ => {},
            }
            k = k + 1;
        }
        proof {
            assert(all.subrange(0, k as int) =~= all);
        }
        len
    }

    /// Return the length of the query: clips, matches, mismatches and
    /// insertions.
    pub fn query_length(&self) -> (r: usize)
        requires
            self.wf(),
        ensures
            r == query_len(self.ops()),
    {
        let ops = self.cigar();
        let ghost all = ops@;
        let mut len: usize = 0;
        let mut k: usize = 0;
        while k < ops.len()
            invariant
                k <= all.len(),
                all == ops@,
                query_len(all) <= usize::MAX,
                len == query_len(all.subrange(0, k as int)),
            decreases all.len() - k,
        {
            proof {
                assert(all.subrange(0, k + 1).drop_last() =~= all.subrange(0, k as int));
                lemma_query_len_prefix(all, k + 1);
            }
            match ops[k] {
                Op::HardClip(b) | Op::SoftClip(b) | Op::Align(b) | Op::Match(b) | Op::Mismatch(b)
                | Op::Insertion(b) => {
                    len = len + b;
                },
                _ => {},
            }
            k = k + 1;
        }
        proof {
            assert(all.subrange(0, k as int) =~= all);
        }
        len
    }

    /// The qualities as text, each value plus 33.
    pub fn qual_as_str(&self) -> (r: String)
        requires
            self.wf(),
        ensures
            r@ == qual_text(self@.qual),
    {
        let mut out: Vec<char> = Vec::new();
        let mut k: usize = 0;
        proof {
            assert(self@.qual == self.qual@);
        }
        while k < self.qual.len()
            invariant
                k <= self.qual@.len(),
                forall|i: int| 0 <= i < self.qual@.len() ==> #[trigger] self.qual@[i] <= 93,
                out@ == qual_text(self.qual@.subrange(0, k as int)),
            decreases self.qual@.len() - k,
        {
            let e = self.qual[k];
            out.push((e + 33) as char);
            proof {
                assert(out@ =~= qual_text(self.qual@.subrange(0, k + 1)));
            }
            k = k + 1;
        }
        proof {
            assert(self.qual@.subrange(0, k as int) =~= self.qual@);
        }
        string_of(out.as_slice())
    }

    /// The record as one tab-separated SAM line.
    pub fn to_line(&self) -> (r: String)
        requires
            self.wf(),
        ensures
            r@ == record_text(self@),
    {
        let mut out: Vec<char> = Vec::new();
        push_str(&mut out, self.q_name.as_str());
        out.push('\t');
        push_decimal(&mut out, self.flag as u64);
        out.push('\t');
        push_str(&mut out, self.r_name.as_str());
        out.push('\t');
        push_decimal(&mut out, self.pos as u64);
        out.push('\t');
        push_decimal(&mut out, self.mapq as u64);
        out.push('\t');
        let ghost part1 = out@;
        push_str(&mut out, self.cigar.as_str());
        out.push('\t');
        push_str(&mut out, self.rnext.as_str());
        out.push('\t');
        push_decimal(&mut out, self.pnext as u64);
        out.push('\t');
        push_decimal(&mut out, self.tlen as u64);
        out.push('\t');
        let ghost part2 = out@;
        push_str(&mut out, self.seq.as_str());
        out.push('\t');
        let q = self.qual_as_str();
        push_str(&mut out, q.as_str());
        let ghost part3 = out@;
        let ghost views = string_views(self.attr@);
        let mut k: usize = 0;
        while k < self.attr.len()
            invariant
                k <= self.attr@.len(),
                views == string_views(self.attr@),
                views.len() == self.attr@.len(),
                out@ == part3 + if k == 0 {
                    Seq::<char>::empty()
                } else {
                    seq!['\t'] + joined_by_tab(views.subrange(0, k as int))
                },
            decreases self.attr@.len() - k,
        {
            let ghost next = views.subrange(0, k + 1);
            proof {
                assert(next.drop_last() =~= views.subrange(0, k as int));
                assert(next.last() == self.attr@[k as int]@);
            }
            out.push('\t');
            push_str(&mut out, self.attr[k].as_str());
            proof {
                if k == 0 {
                    assert(next =~= seq![self.attr@[0]@]);
                }
                assert(out@ =~= part3 + (seq!['\t'] + joined_by_tab(next)));
            }
            k = k + 1;
        }
        proof {
            assert(views.subrange(0, k as int) =~= views);
            assert(out@ =~= record_text(self@));
        }
        string_of(out.as_slice())
    }
}

impl std::str::FromStr for Record {
    type Err = ParseSamError;

    fn from_str(input: &str) -> Result<Self, Self::Err> {
        Record::from_line(input)
    }
}

/// SAM header line.
#[derive(Debug, Clone)]
pub struct Header {
    /// Tag name (NN for `@NN`)
    pub tag: String,
    /// Attributes for this tag. Each attribute is separated by '\t',
    /// and in "AttributeName:AttributeValue" format.
    pub attrs: Vec<(String, String)>,
}

/// A field with its leading `@`s removed.
pub open spec fn trim_at(s: Seq<char>) -> Seq<char>
    decreases s.len(),
{
    if s.len() > 0 && s[0] == '@' {
        trim_at(s.drop_first())
    } else {
        s
    }
}

/// The attributes that header fields give: each field that holds a `:`
/// gives the part before the first `:` and the rest after it.
pub open spec fn header_attrs(fs: Seq<Seq<char>>) -> Seq<(Seq<char>, Seq<char>)>
    decreases fs.len(),
{
    if fs.len() == 0 {
        Seq::empty()
    } else {
        let f = fs.last();
        let at = first_index(f, ':');
        header_attrs(fs.drop_last()) + if at < f.len() {
            seq![(f.subrange(0, at as int), f.subrange(at as int + 1, f.len() as int))]
        } else {
            Seq::empty()
        }
    }
}

pub open spec fn pair_views(v: Seq<(String, String)>) -> Seq<(Seq<char>, Seq<char>)> {
    v.map_values(|p: (String, String)| (p.0@, p.1@))
}

impl Header {
    /// Reads a header line: the tag after the leading `@`, then the
    /// `name:value` attributes; a field without `:` is skipped.
    #[verifier::loop_isolation(false)]
    pub fn new(line: &str) -> (r: Option<Self>)
        ensures
            match r {
                Some(h) => h.tag@ == trim_at(split_on(line@, '\t')[0]) && pair_views(h.attrs@)
                    == header_attrs(split_on(line@, '\t').drop_first()),
                None => false,
            },
    {
        let chars = chars_of(line);
        let f = split_chars(chars.as_slice(), '\t');
        let ghost fs = split_on(line@, '\t');
        proof {
            crate::text::lemma_split_nonempty(line@, '\t');
        }
        let first = &f[0];
        proof {
            assert(first@.subrange(0, first@.len() as int) =~= first@);
        }
        let mut s: usize = 0;
        while s < first.len() && first[s] == '@'
            invariant
                s <= first@.len(),
                trim_at(first@) == trim_at(first@.subrange(s as int, first@.len() as int)),
            decreases first@.len() - s,
        {
            proof {
                let rest = first@.subrange(s as int, first@.len() as int);
                assert(rest.drop_first() =~= first@.subrange(s + 1, first@.len() as int));
            }
            s = s + 1;
        }
        proof {
            let rest = first@.subrange(s as int, first@.len() as int);
            if s == 0 {
                assert(rest =~= first@);
            }
        }
        let tag = crate::text::suffix_string(first.as_slice(), s);
        let mut attrs: Vec<(String, String)> = Vec::new();
        let mut k: usize = 1;
        while k < f.len()
            invariant
                1 <= k <= f@.len(),
                pair_views(attrs@) == header_attrs(fs.subrange(1, k as int)),
            decreases f@.len() - k,
        {
            let field = &f[k];
            let ghost prev = attrs@;
            proof {
                assert(fs.subrange(1, k + 1).drop_last() =~= fs.subrange(1, k as int));
                assert(fs.subrange(1, k + 1).last() == field@);
                lemma_first_index(field@, ':');
            }
            let at = find_char(field.as_slice(), ':');
            if at < field.len() {
                let mut key_chars: Vec<char> = Vec::new();
                let mut i: usize = 0;
                while i < at
                    invariant
                        i <= at <= field@.len(),
                        key_chars@ == field@.subrange(0, i as int),
                    decreases at - i,
                {
                    key_chars.push(field[i]);
                    proof {
                        assert(field@.subrange(0, i + 1) =~= field@.subrange(0, i as int).push(
                            field@[i as int],
                        ));
                    }
                    i = i + 1;
                }
                let key = string_of(key_chars.as_slice());
                let value = crate::text::suffix_string(field.as_slice(), at + 1);
                attrs.push((key, value));
                proof {
                    assert(pair_views(attrs@) =~= pair_views(prev) + seq![(key@, value@)]);
                }
            } else {
                proof {
                    assert(pair_views(attrs@) =~= pair_views(prev) + Seq::empty());
                }
            }
            k = k + 1;
        }
        proof {
            assert(fs.subrange(1, k as int) =~= fs.drop_first());
        }
        Some(Header { tag, attrs })
    }
}

} // verus!
