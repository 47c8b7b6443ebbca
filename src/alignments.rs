//! Edit distance between two byte sequences.
use vstd::prelude::*;

verus! {

pub open spec fn min3(a: nat, b: nat, c: nat) -> nat {
    if a <= b && a <= c {
        a
    } else if b <= c {
        b
    } else {
        c
    }
}

/// The edit distance between the first `i` bytes of `x` and the first `j`
/// bytes of `y`: the fewest insertions, deletions and substitutions that turn
/// one into the other.
pub open spec fn edit_distance(x: Seq<u8>, y: Seq<u8>, i: nat, j: nat) -> nat
    decreases i + j,
{
    if i == 0 {
        j
    } else if j == 0 {
        i
    } else {
        min3(
            edit_distance(x, y, (i - 1) as nat, j) + 1,
            edit_distance(x, y, i, (j - 1) as nat) + 1,
            edit_distance(x, y, (i - 1) as nat, (j - 1) as nat) + if x[i - 1] == y[j - 1] {
                0nat
            } else {
                1nat
            },
        )
    }
}

proof fn lemma_edit_distance_bound(x: Seq<u8>, y: Seq<u8>, i: nat, j: nat)
    ensures
        edit_distance(x, y, i, j) <= i + j,
    decreases i + j,
{
    if i > 0 && j > 0 {
        lemma_edit_distance_bound(x, y, (i - 1) as nat, j);
    }
}

/// Return edit distance
pub fn edit_dist(x1: &[u8], x2: &[u8]) -> (r: u32)
    requires
        x1@.len() + x2@.len() < u32::MAX,
    ensures
        r == edit_distance(x1@, x2@, x1@.len(), x2@.len()),
{
    let n1 = x1.len();
    let n2 = x2.len();
    let mut prev: Vec<u32> = Vec::new();
    let mut j: usize = 0;
    while j <= n2
        invariant
            j <= n2 + 1,
            n1 == x1@.len(),
            n2 == x2@.len(),
            n1 + n2 < u32::MAX,
            prev@.len() == j,
            forall|k: int| 0 <= k < j ==> prev@[k] == edit_distance(x1@, x2@, 0, k as nat),
        decreases n2 + 1 - j,
    {
        prev.push(j as u32);
        j = j + 1;
    }
    let mut i: usize = 0;
    while i < n1
        invariant
            i <= n1,
            n1 == x1@.len(),
            n2 == x2@.len(),
            n1 + n2 < u32::MAX,
            prev@.len() == n2 + 1,
            forall|k: int|
                0 <= k <= n2 ==> prev@[k] == edit_distance(x1@, x2@, i as nat, k as nat),
        decreases n1 - i,
    {
        let mut cur: Vec<u32> = Vec::new();
        cur.push((i + 1) as u32);
        let mut j: usize = 0;
        while j < n2
            invariant
                i < n1,
                j <= n2,
                n1 == x1@.len(),
                n2 == x2@.len(),
                n1 + n2 < u32::MAX,
                prev@.len() == n2 + 1,
                forall|k: int|
                    0 <= k <= n2 ==> prev@[k] == edit_distance(x1@, x2@, i as nat, k as nat),
                cur@.len() == j + 1,
                forall|k: int|
                    0 <= k <= j ==> cur@[k] == edit_distance(x1@, x2@, (i + 1) as nat, k as nat),
            decreases n2 - j,
        {
            proof {
                lemma_edit_distance_bound(x1@, x2@, i as nat, (j + 1) as nat);
                lemma_edit_distance_bound(x1@, x2@, (i + 1) as nat, j as nat);
                lemma_edit_distance_bound(x1@, x2@, i as nat, j as nat);
            }
            let m: u32 = if x1[i] != x2[j] {
                1
            } else {
                0
            };
            let a = prev[j + 1] + 1;
            let b = cur[j] + 1;
            let c = prev[j] + m;
            let v = if a <= b && a <= c {
                a
            } else if b <= c {
                b
            } else {
                c
            };
            cur.push(v);
            proof {
                assert(cur@[j + 1] == edit_distance(x1@, x2@, (i + 1) as nat, (j + 1) as nat));
            }
            j = j + 1;
        }
        prev = cur;
        i = i + 1;
    }
    prev[n2]
}

} // verus!
