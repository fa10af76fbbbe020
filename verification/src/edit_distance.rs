//! Levenshtein edit distance: the measure behind fuzzy lookup.  The
//! mathematical definition recurses on the last characters; the executable
//! function fills the classic dynamic-programming table two rows at a time
//! and is proved against the definition.

use vstd::prelude::*;

verus! {

/// The smallest of three naturals.
pub open spec fn min3(x: nat, y: nat, z: nat) -> nat {
    if x <= y && x <= z {
        x
    } else if y <= z {
        y
    } else {
        z
    }
}

/// The Levenshtein edit distance between two character sequences: the
/// least number of single-character insertions, deletions and
/// substitutions that turns one into the other.
pub open spec fn edit_distance(a: Seq<char>, b: Seq<char>) -> nat
    decreases a.len(), b.len(),
{
    if a.len() == 0 {
        b.len()
    } else if b.len() == 0 {
        a.len()
    } else if a.last() == b.last() {
        edit_distance(a.drop_last(), b.drop_last())
    } else {
        1 + min3(
            edit_distance(a.drop_last(), b),
            edit_distance(a, b.drop_last()),
            edit_distance(a.drop_last(), b.drop_last()),
        )
    }
}

/// The distance never exceeds the longer length: one can always substitute
/// the overlap and insert the rest.
pub proof fn lemma_edit_distance_le_max(a: Seq<char>, b: Seq<char>)
    ensures
        edit_distance(a, b) <= vstd::math::max(a.len() as int, b.len() as int),
    decreases a.len(), b.len(),
{
    if a.len() == 0 || b.len() == 0 {
    } else {
        lemma_edit_distance_le_max(a.drop_last(), b.drop_last());
    }
}

/// The Levenshtein distance, computed over prefixes with two rolling rows.
pub fn levenshtein(a: &Vec<char>, b: &Vec<char>) -> (d: usize)
    ensures
        d == edit_distance(a@, b@),
{
    let n = a.len();
    let m = b.len();

    let mut prev: Vec<usize> = Vec::new();
    prev.push(0);
    let mut j: usize = 0;
    while j < m
        invariant
            j <= m,
            m == b@.len(),
            prev@.len() == j + 1,
            forall|k: int| 0 <= k <= j ==> prev@[k] == k,
        decreases m - j,
    {
        prev.push(j + 1);
        j = j + 1;
    }
    proof {
        assert forall|k: int| 0 <= k <= m implies prev@[k] == edit_distance(
            a@.take(0),
            b@.take(k),
        ) by {
            assert(a@.take(0) =~= Seq::<char>::empty());
            assert(b@.take(k).len() == k);
        }
    }

    let mut row: usize = 0;
    while row < n
        invariant
            row <= n,
            n == a@.len(),
            m == b@.len(),
            prev@.len() == m + 1,
            forall|k: int| 0 <= k <= m ==> prev@[k] == edit_distance(
                a@.take(row as int),
                b@.take(k),
            ),
        decreases n - row,
    {
        let i = row + 1;
        let mut curr: Vec<usize> = Vec::new();
        curr.push(i);
        proof {
            assert(b@.take(0) =~= Seq::<char>::empty());
            assert(a@.take(i as int).len() == i);
        }
        let mut col: usize = 0;
        while col < m
            invariant
                1 <= i <= n,
                i == row + 1,
                col <= m,
                n == a@.len(),
                m == b@.len(),
                prev@.len() == m + 1,
                curr@.len() == col + 1,
                forall|k: int| 0 <= k <= m ==> prev@[k] == edit_distance(
                    a@.take(i - 1),
                    b@.take(k),
                ),
                forall|k: int| 0 <= k <= col ==> curr@[k] == edit_distance(
                    a@.take(i as int),
                    b@.take(k),
                ),
            decreases m - col,
        {
            let j = col + 1;
            let cost_del = prev[j];
            let cost_ins = curr[j - 1];
            let cost_sub = prev[j - 1];
            proof {
                assert(a@.take(i as int).last() == a@[i - 1]);
                assert(b@.take(j as int).last() == b@[j - 1]);
                assert(a@.take(i as int).drop_last() =~= a@.take(i - 1));
                assert(b@.take(j as int).drop_last() =~= b@.take(j - 1));
                lemma_edit_distance_le_max(a@.take(i - 1), b@.take(j - 1));
                assert(a@.take(i - 1).len() == i - 1);
                assert(b@.take(j - 1).len() == j - 1);
            }
            let v: usize = if a[i - 1] == b[j - 1] {
                cost_sub
            } else {
                let mn: usize = if cost_del <= cost_ins && cost_del <= cost_sub {
                    cost_del
                } else if cost_ins <= cost_sub {
                    cost_ins
                } else {
                    cost_sub
                };
                mn + 1
            };
            curr.push(v);
            col = col + 1;
        }
        prev = curr;
        row = row + 1;
    }
    proof {
        assert(a@.take(n as int) =~= a@);
        assert(b@.take(m as int) =~= b@);
    }
    prev[m]
}

} // verus!
