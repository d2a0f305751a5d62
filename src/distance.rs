use vstd::prelude::*;
use crate::text::chars_of;

verus! {

pub open spec fn min3(x: nat, y: nat, z: nat) -> nat {
    if x <= y && x <= z {
        x
    } else if y <= z {
        y
    } else {
        z
    }
}

/// The Levenshtein distance: the least number of single-character insertions, deletions
/// and substitutions that turn `a` into `b`.
pub open spec fn lev(a: Seq<char>, b: Seq<char>) -> nat
    decreases a.len() + b.len(),
{
    if a.len() == 0 {
        b.len()
    } else if b.len() == 0 {
        a.len()
    } else {
        min3(
            lev(a.drop_last(), b) + 1,
            lev(a, b.drop_last()) + 1,
            lev(a.drop_last(), b.drop_last()) + (if a.last() == b.last() {
                0nat
            } else {
                1nat
            }),
        )
    }
}

/// The distance never exceeds the longer length.
pub proof fn lemma_lev_le_max(a: Seq<char>, b: Seq<char>)
    ensures
        lev(a, b) <= if a.len() >= b.len() {
            a.len()
        } else {
            b.len()
        },
    decreases a.len() + b.len(),
{
    if a.len() > 0 && b.len() > 0 {
        lemma_lev_le_max(a.drop_last(), b.drop_last());
    }
}

/// The distance of a string to itself is zero.
pub proof fn lemma_lev_self(a: Seq<char>)
    ensures
        lev(a, a) == 0,
    decreases a.len(),
{
    if a.len() > 0 {
        lemma_lev_self(a.drop_last());
    }
}

/// The Levenshtein distance between the characters of `a` and of `b`.
pub fn edit_distance_chars(a: &Vec<char>, b: &Vec<char>) -> (r: usize)
    requires
        a.len() < usize::MAX,
        b.len() < usize::MAX,
    ensures
        r == lev(a@, b@),
{
    let n = a.len();
    let m = b.len();
    let mut prev: Vec<usize> = Vec::new();
    let mut j: usize = 0;
    while j <= m
        invariant
            j <= m + 1,
            m == b.len(),
            m < usize::MAX,
            prev.len() == j,
            forall|k: int| 0 <= k < j ==> prev[k] == lev(a@.subrange(0, 0), b@.subrange(0, k)),
        decreases m + 1 - j,
    {
        prev.push(j);
        j = j + 1;
    }
    let mut i: usize = 1;
    while i <= n
        invariant
            1 <= i <= n + 1,
            n == a.len(),
            m == b.len(),
            n < usize::MAX,
            m < usize::MAX,
            prev.len() == m + 1,
            forall|k: int|
                0 <= k <= m ==> prev[k] == lev(a@.subrange(0, i - 1), b@.subrange(0, k)),
        decreases n + 1 - i,
    {
        let ghost ai = a@.subrange(0, i as int);
        proof {
            assert(ai.drop_last() =~= a@.subrange(0, i - 1));
            assert(ai.last() == a@[i - 1]);
        }
        let mut cur: Vec<usize> = Vec::new();
        cur.push(i);
        let mut j: usize = 1;
        while j <= m
            invariant
                1 <= i <= n,
                1 <= j <= m + 1,
                n == a.len(),
                m == b.len(),
                n < usize::MAX,
                m < usize::MAX,
                ai == a@.subrange(0, i as int),
                ai.drop_last() == a@.subrange(0, i - 1),
                ai.last() == a@[i - 1],
                prev.len() == m + 1,
                cur.len() == j,
                forall|k: int|
                    0 <= k <= m ==> prev[k] == lev(a@.subrange(0, i - 1), b@.subrange(0, k)),
                forall|k: int| 0 <= k < j ==> cur[k] == lev(ai, b@.subrange(0, k)),
            decreases m + 1 - j,
        {
            let ghost bj = b@.subrange(0, j as int);
            proof {
                assert(bj.drop_last() =~= b@.subrange(0, j - 1));
                assert(bj.last() == b@[j - 1]);
                lemma_lev_le_max(a@.subrange(0, i - 1), b@.subrange(0, j as int));
                lemma_lev_le_max(ai, b@.subrange(0, j - 1));
                lemma_lev_le_max(a@.subrange(0, i - 1), b@.subrange(0, j - 1));
            }
            let del = prev[j] + 1;
            let ins = cur[j - 1] + 1;
            let cost: usize = if a[i - 1] == b[j - 1] {
                0
            } else {
                1
            };
            let sub = prev[j - 1] + cost;
            let best = if del <= ins && del <= sub {
                del
            } else if ins <= sub {
                ins
            } else {
                sub
            };
            cur.push(best);
            j = j + 1;
        }
        prev = cur;
        i = i + 1;
    }
    assert(a@.subrange(0, n as int) =~= a@);
    assert(b@.subrange(0, m as int) =~= b@);
    prev[m]
}

/// The Levenshtein distance between two strings, counted in characters.
pub fn levenshtein_distance(a: &str, b: &str) -> (r: usize)
    requires
        a@.len() < usize::MAX,
        b@.len() < usize::MAX,
    ensures
        r == lev(a@, b@),
{
    let ac = chars_of(a);
    let bc = chars_of(b);
    edit_distance_chars(&ac, &bc)
}

} // verus!
