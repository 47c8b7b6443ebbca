//! Reconstruction of a pairwise alignment view from CIGAR operations.
use vstd::prelude::*;
use crate::sam::Op;
use crate::text::{push_zero_padded, zero_padded};

verus! {

/// Query bases that an operation moves the query cursor over.
pub open spec fn query_step(o: Op) -> nat {
    match o {
        Op::Align(l) | Op::Match(l) | Op::Insertion(l) => l as nat,
        _ => 0,
    }
}

/// Reference bases that an operation moves the reference cursor over.
pub open spec fn ref_step(o: Op) -> nat {
    match o {
        Op::Align(l) | Op::Match(l) | Op::Deletion(l) => l as nat,
        _ => 0,
    }
}

pub open spec fn query_steps(ops: Seq<Op>) -> nat
    decreases ops.len(),
{
    if ops.len() == 0 {
        0
    } else {
        query_steps(ops.drop_last()) + query_step(ops.last())
    }
}

pub open spec fn ref_steps(ops: Seq<Op>) -> nat
    decreases ops.len(),
{
    if ops.len() == 0 {
        0
    } else {
        ref_steps(ops.drop_last()) + ref_step(ops.last())
    }
}

/// The clip length of an operation that is a clip.
pub open spec fn clip_len(o: Op) -> Option<usize> {
    match o {
        Op::SoftClip(l) | Op::HardClip(l) => Some(l),
        _ => None,
    }
}

/// Where the query cursor starts: after a leading clip.
pub open spec fn query_start(ops: Seq<Op>) -> nat {
    match clip_len(ops[0]) {
        Some(l) => l as nat,
        None => 0,
    }
}

pub open spec fn ascii(s: Seq<char>) -> Seq<u8> {
    Seq::new(s.len(), |i: int| s[i] as u8)
}

/// `[head NNNNN base]` or `[tail NNNNN base]`, the number zero-padded to
/// five digits.
pub open spec fn annotation(head: bool, n: nat) -> Seq<u8> {
    ascii(
        seq!['['] + (if head {
            seq!['h', 'e', 'a', 'd']
        } else {
            seq!['t', 'a', 'i', 'l']
        }) + seq![' '] + zero_padded(n, 5) + seq![' ', 'b', 'a', 's', 'e', ']'],
    )
}

/// `n` copies of byte `b`.
pub open spec fn repeat(b: u8, n: nat) -> Seq<u8> {
    Seq::new(n, |i: int| b)
}

/// The marker row of a match run: `|` where the bytes agree, `X` elsewhere.
pub open spec fn marks(xs: Seq<u8>, ys: Seq<u8>) -> Seq<u8> {
    Seq::new(xs.len(), |i: int| if xs[i] == ys[i] {
        124u8
    } else {
        88u8
    })
}

/// What one operation adds to the three rows at query cursor `q` and
/// reference cursor `r`.
pub open spec fn op_rows(o: Op, q: int, r: int, s1: Seq<u8>, s2: Seq<u8>) -> (
    Seq<u8>,
    Seq<u8>,
    Seq<u8>,
) {
    match o {
        Op::Align(l) | Op::Match(l) => (
            s1.subrange(q, q + l),
            marks(s1.subrange(q, q + l), s2.subrange(r, r + l)),
            s2.subrange(r, r + l),
        ),
        Op::Deletion(l) => (repeat(45u8, l as nat), repeat(32u8, l as nat), s2.subrange(r, r + l)),
        Op::Insertion(l) => (s1.subrange(q, q + l), repeat(32u8, l as nat), repeat(45u8, l as nat)),
        _ => (Seq::empty(), Seq::empty(), Seq::empty()),
    }
}

/// The three rows that the operations give, the query cursor starting at
/// `q0` and the reference cursor at `r0`.
pub open spec fn body_rows(ops: Seq<Op>, q0: int, r0: int, s1: Seq<u8>, s2: Seq<u8>) -> (
    Seq<u8>,
    Seq<u8>,
    Seq<u8>,
)
    decreases ops.len(),
{
    if ops.len() == 0 {
        (Seq::empty(), Seq::empty(), Seq::empty())
    } else {
        let pre = body_rows(ops.drop_last(), q0, r0, s1, s2);
        let add = op_rows(
            ops.last(),
            q0 + query_steps(ops.drop_last()),
            r0 + ref_steps(ops.drop_last()),
            s1,
            s2,
        );
        (pre.0 + add.0, pre.1 + add.1, pre.2 + add.2)
    }
}

/// The replay stays within both sequences.
pub open spec fn replay_fits(ops: Seq<Op>, s1_len: nat, s2_len: nat, pos: nat) -> bool {
    &&& ops.len() > 0
    &&& query_start(ops) + query_steps(ops) <= s1_len
    &&& pos + ref_steps(ops) <= s2_len
}

/// The three rows of the reconstruction: query, markers, reference.
pub open spec fn reconstruction(ops: Seq<Op>, s1: Seq<u8>, s2: Seq<u8>, pos: nat) -> (
    Seq<u8>,
    Seq<u8>,
    Seq<u8>,
) {
    let q0 = query_start(ops);
    let body = body_rows(ops, q0 as int, pos as int, s1, s2);
    let tail = match clip_len(ops.last()) {
        Some(l) => l as nat,
        None => 0,
    };
    (
        annotation(true, q0) + body.0 + annotation(false, tail),
        repeat(32u8, 17) + body.1 + repeat(32u8, 17),
        annotation(true, pos) + body.2 + annotation(false, (s2.len() - (pos + ref_steps(ops))) as nat),
    )
}

proof fn lemma_steps_prefix(ops: Seq<Op>, k: int)
    requires
        0 <= k <= ops.len(),
    ensures
        query_steps(ops.subrange(0, k)) <= query_steps(ops),
        ref_steps(ops.subrange(0, k)) <= ref_steps(ops),
    decreases ops.len() - k,
{
    if k < ops.len() {
        lemma_steps_prefix(ops, k + 1);
        assert(ops.subrange(0, k + 1).drop_last() =~= ops.subrange(0, k));
    } else {
        assert(ops.subrange(0, k) =~= ops);
    }
}

/// Appends an annotation.
fn push_annotation(out: &mut Vec<u8>, head: bool, n: u64)
    ensures
        final(out)@ == old(out)@ + annotation(head, n as nat),
{
    let mut text: Vec<char> = Vec::new();
    text.push('[');
    if head {
        text.push('h');
        text.push('e');
        text.push('a');
        text.push('d');
    } else {
        text.push('t');
        text.push('a');
        text.push('i');
        text.push('l');
    }
    text.push(' ');
    push_zero_padded(&mut text, n, 5);
    text.push(' ');
    text.push('b');
    text.push('a');
    text.push('s');
    text.push('e');
    text.push(']');
    let ghost expected = seq!['['] + (if head {
        seq!['h', 'e', 'a', 'd']
    } else {
        seq!['t', 'a', 'i', 'l']
    }) + seq![' '] + zero_padded(n as nat, 5) + seq![' ', 'b', 'a', 's', 'e', ']'];
    assert(text@ =~= expected);
    let ghost start = out@;
    let mut i: usize = 0;
    while i < text.len()
        invariant
            i <= text@.len(),
            out@ == start + ascii(text@.subrange(0, i as int)),
        decreases text@.len() - i,
    {
        out.push(text[i] as u8);
        proof {
            assert(start + ascii(text@.subrange(0, i + 1)) =~= (start + ascii(
                text@.subrange(0, i as int),
            )).push(text@[i as int] as u8));
        }
        i = i + 1;
    }
    proof {
        assert(text@.subrange(0, i as int) =~= text@);
    }
}

/// Appends `n` copies of `b`.
fn push_repeat(out: &mut Vec<u8>, b: u8, n: usize)
    ensures
        final(out)@ == old(out)@ + repeat(b, n as nat),
{
    let ghost start = out@;
    let mut i: usize = 0;
    while i < n
        invariant
            i <= n,
            out@ == start + repeat(b, i as nat),
        decreases n - i,
    {
        out.push(b);
        proof {
            assert(start + repeat(b, (i + 1) as nat) =~= (start + repeat(b, i as nat)).push(b));
        }
        i = i + 1;
    }
}

/// Appends `s[from..from + n]`.
fn push_slice(out: &mut Vec<u8>, s: &[u8], from: usize, n: usize)
    requires
        from + n <= s@.len(),
    ensures
        final(out)@ == old(out)@ + s@.subrange(from as int, from + n),
{
    let ghost start = out@;
    let len = s.len();
    let mut i: usize = 0;
    while i < n
        invariant
            i <= n,
            len == s@.len(),
            from + n <= s@.len(),
            out@ == start + s@.subrange(from as int, from + i),
        decreases n - i,
    {
        out.push(s[from + i]);
        proof {
            assert(start + s@.subrange(from as int, from + i + 1) =~= (start + s@.subrange(
                from as int,
                from + i,
            )).push(s@[from + i]));
        }
        i = i + 1;
    }
}

/// The marker row of two equal-length runs: `|` where the bytes agree, `X`
/// elsewhere.
fn match_mismatch(xs: &[u8], ys: &[u8], xfrom: usize, yfrom: usize, n: usize) -> (r: Vec<u8>)
    requires
        xfrom + n <= xs@.len(),
        yfrom + n <= ys@.len(),
    ensures
        r@ == marks(
            xs@.subrange(xfrom as int, xfrom + n),
            ys@.subrange(yfrom as int, yfrom + n),
        ),
{
    let mut out: Vec<u8> = Vec::new();
    let xlen = xs.len();
    let ylen = ys.len();
    let mut i: usize = 0;
    while i < n
        invariant
            i <= n,
            xlen == xs@.len(),
            ylen == ys@.len(),
            xfrom + n <= xs@.len(),
            yfrom + n <= ys@.len(),
            out@.len() == i,
            forall|k: int|
                0 <= k < i ==> out@[k] == (if xs@[xfrom + k] == ys@[yfrom + k] {
                    124u8
                } else {
                    88u8
                }),
        decreases n - i,
    {
        if xs[xfrom + i] == ys[yfrom + i] {
            out.push(124u8);
        } else {
            out.push(88u8);
        }
        i = i + 1;
    }
    proof {
        assert(out@ =~= marks(
            xs@.subrange(xfrom as int, xfrom + n),
            ys@.subrange(yfrom as int, yfrom + n),
        ));
    }
    out
}

/// Reconstruct a pairwise alignment and output pretty rows.
/// `seq1` is the query, `seq2` the reference, and `pos` the first position
/// of `seq2` that the alignment consumes. The rows are the query, the
/// markers, and the reference, each framed by head and tail annotations.
/// The sequences should be reverse-complemented if the alignment is.
pub fn recover_alignment(iter: &[Op], seq1: &[u8], seq2: &[u8], pos: usize) -> (r: (
    Vec<u8>,
    Vec<u8>,
    Vec<u8>,
))
    requires
        replay_fits(iter@, seq1@.len(), seq2@.len(), pos as nat),
    ensures
        (r.0@, r.1@, r.2@) == reconstruction(iter@, seq1@, seq2@, pos as nat),
{
    let ghost ops = iter@;
    let mut seq1_with_gap: Vec<u8> = Vec::new();
    let mut seq2_with_gap: Vec<u8> = Vec::new();
    let mut operations: Vec<u8> = Vec::new();
    let mut seq1idx: usize = 0;
    let mut seq2idx: usize = pos;
    match iter[0] {
        Op::SoftClip(l) | Op::HardClip(l) => {
            seq1idx = l;
        },
        _ => {},
    }
    push_annotation(&mut seq1_with_gap, true, seq1idx as u64);
    push_annotation(&mut seq2_with_gap, true, pos as u64);
    push_repeat(&mut operations, 32u8, 17);
    let ghost h1 = seq1_with_gap@;
    let ghost h2 = seq2_with_gap@;
    let ghost hm = operations@;
    let ghost q0 = seq1idx as int;
    let n1 = seq1.len();
    let n2 = seq2.len();
    let mut k: usize = 0;
    while k < iter.len()
        invariant
            k <= ops.len(),
            n1 == seq1@.len(),
            n2 == seq2@.len(),
            iter@ == ops,
            replay_fits(ops, seq1@.len(), seq2@.len(), pos as nat),
            q0 == query_start(ops),
            seq1idx == q0 + query_steps(ops.subrange(0, k as int)),
            seq2idx == pos + ref_steps(ops.subrange(0, k as int)),
            ({
                let b = body_rows(ops.subrange(0, k as int), q0, pos as int, seq1@, seq2@);
                &&& seq1_with_gap@ == h1 + b.0
                &&& operations@ == hm + b.1
                &&& seq2_with_gap@ == h2 + b.2
            }),
        decreases ops.len() - k,
    {
        let ghost pre = ops.subrange(0, k as int);
        let ghost next = ops.subrange(0, k + 1);
        proof {
            assert(next.drop_last() =~= pre);
            lemma_steps_prefix(ops, k + 1);
        }
        match iter[k] {
            Op::Align(l) | Op::Match(l) => {
                push_slice(&mut seq1_with_gap, seq1, seq1idx, l);
                push_slice(&mut seq2_with_gap, seq2, seq2idx, l);
                let m = match_mismatch(seq1, seq2, seq1idx, seq2idx, l);
                let mut j: usize = 0;
                let ghost before = operations@;
                while j < m.len()
                    invariant
                        j <= m@.len(),
                        operations@ == before + m@.subrange(0, j as int),
                    decreases m@.len() - j,
                {
                    operations.push(m[j]);
                    proof {
                        assert(before + m@.subrange(0, j + 1) =~= (before + m@.subrange(
                            0,
                            j as int,
                        )).push(m@[j as int]));
                    }
                    j = j + 1;
                }
                proof {
                    assert(m@.subrange(0, j as int) =~= m@);
                }
                seq1idx = seq1idx + l;
                seq2idx = seq2idx + l;
            },
            Op::Deletion(l) => {
                push_repeat(&mut seq1_with_gap, 45u8, l);
                push_slice(&mut seq2_with_gap, seq2, seq2idx, l);
                push_repeat(&mut operations, 32u8, l);
                seq2idx = seq2idx + l;
            },
            Op::Insertion(l) => {
                push_slice(&mut seq1_with_gap, seq1, seq1idx, l);
                push_repeat(&mut seq2_with_gap, 45u8, l);
                push_repeat(&mut operations, 32u8, l);
                seq1idx = seq1idx + l;
            },
            _ => {},
        }
        proof {
            let b = body_rows(next, q0, pos as int, seq1@, seq2@);
            assert(seq1_with_gap@ =~= h1 + b.0);
            assert(operations@ =~= hm + b.1);
            assert(seq2_with_gap@ =~= h2 + b.2);
        }
        k = k + 1;
    }
    proof {
        assert(ops.subrange(0, k as int) =~= ops);
    }
    let tail: usize = match iter[iter.len() - 1] {
        Op::SoftClip(l) | Op::HardClip(l) => l,
        _ => 0,
    };
    push_annotation(&mut seq1_with_gap, false, tail as u64);
    push_annotation(&mut seq2_with_gap, false, (seq2.len() - seq2idx) as u64);
    push_repeat(&mut operations, 32u8, 17);
    proof {
        let b = body_rows(ops, q0, pos as int, seq1@, seq2@);
        assert(ops.last() == ops[ops.len() - 1]);
        assert(seq1_with_gap@ =~= reconstruction(ops, seq1@, seq2@, pos as nat).0);
        assert(operations@ =~= reconstruction(ops, seq1@, seq2@, pos as nat).1);
        assert(seq2_with_gap@ =~= reconstruction(ops, seq1@, seq2@, pos as nat).2);
    }
    (seq1_with_gap, operations, seq2_with_gap)
}

} // verus!
