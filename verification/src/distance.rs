//! Levenshtein edit distance over byte sequences: the mathematical
//! definition, a dynamic-programming implementation with two rolling
//! rows, and the metric laws (identity, symmetry, bounds, triangle
//! inequality).

use vstd::prelude::*;

verus! {

/// Minimum of three naturals.
pub open spec fn min3(x: nat, y: nat, z: nat) -> nat {
    if x <= y && x <= z {
        x
    } else if y <= z {
        y
    } else {
        z
    }
}

/// Levenshtein edit distance between byte sequences `a` and `b`: the
/// minimum number of single-byte insertions, deletions and
/// substitutions needed to turn `a` into `b`. Comparison is byte-wise
/// by design, not codepoint-aware.
pub open spec fn edit_distance(a: Seq<u8>, b: Seq<u8>) -> nat
    decreases a.len() + b.len(),
{
    if a.len() == 0 {
        b.len()
    } else if b.len() == 0 {
        a.len()
    } else {
        let del = edit_distance(a.drop_last(), b) + 1;
        let ins = edit_distance(a, b.drop_last()) + 1;
        let sub = edit_distance(a.drop_last(), b.drop_last()) + (if a.last() == b.last() {
            0nat
        } else {
            1nat
        });
        min3(del, ins, sub)
    }
}

/// The distance never exceeds the longer of the two lengths: in the
/// worst case every position is substituted and the length difference
/// is inserted or deleted.
pub proof fn lemma_edit_distance_le_max(a: Seq<u8>, b: Seq<u8>)
    ensures
        edit_distance(a, b) <= if a.len() >= b.len() {
            a.len()
        } else {
            b.len()
        },
    decreases a.len() + b.len(),
{
    if a.len() == 0 || b.len() == 0 {
    } else {
        lemma_edit_distance_le_max(a.drop_last(), b.drop_last());
    }
}

/// Turning a sequence into itself needs no edits.
pub proof fn lemma_edit_distance_self(a: Seq<u8>)
    ensures
        edit_distance(a, a) == 0,
    decreases a.len(),
{
    if a.len() > 0 {
        lemma_edit_distance_self(a.drop_last());
    }
}

/// The distance is symmetric: an edit script from `a` to `b` reverses
/// into one from `b` to `a`.
pub proof fn lemma_edit_distance_symmetric(a: Seq<u8>, b: Seq<u8>)
    ensures
        edit_distance(a, b) == edit_distance(b, a),
    decreases a.len() + b.len(),
{
    if a.len() > 0 && b.len() > 0 {
        lemma_edit_distance_symmetric(a.drop_last(), b);
        lemma_edit_distance_symmetric(a, b.drop_last());
        lemma_edit_distance_symmetric(a.drop_last(), b.drop_last());
    }
}

/// Against an empty sequence the distance is the other sequence's
/// length.
pub proof fn lemma_edit_distance_empty(a: Seq<u8>, b: Seq<u8>)
    ensures
        edit_distance(Seq::<u8>::empty(), b) == b.len(),
        edit_distance(a, Seq::<u8>::empty()) == a.len(),
{
}

/// The distance is at least the difference of the two lengths: every
/// edit changes the length by at most one.
pub proof fn lemma_edit_distance_ge_diff(a: Seq<u8>, b: Seq<u8>)
    ensures
        edit_distance(a, b) + a.len() >= b.len(),
        edit_distance(a, b) + b.len() >= a.len(),
    decreases a.len() + b.len(),
{
    if a.len() > 0 && b.len() > 0 {
        lemma_edit_distance_ge_diff(a.drop_last(), b);
        lemma_edit_distance_ge_diff(a, b.drop_last());
        lemma_edit_distance_ge_diff(a.drop_last(), b.drop_last());
    }
}

/// Dropping the last byte of the left side costs at most one more
/// edit.
proof fn lemma_ed_del_bound(a: Seq<u8>, b: Seq<u8>)
    requires
        a.len() > 0,
    ensures
        edit_distance(a, b) <= edit_distance(a.drop_last(), b) + 1,
{
}

/// Dropping the last byte of the right side costs at most one more
/// edit.
proof fn lemma_ed_ins_bound(a: Seq<u8>, b: Seq<u8>)
    requires
        b.len() > 0,
    ensures
        edit_distance(a, b) <= edit_distance(a, b.drop_last()) + 1,
{
}

/// The triangle inequality: going from `a` to `c` is never more
/// expensive than going through `b`.
pub proof fn lemma_edit_distance_triangle(a: Seq<u8>, b: Seq<u8>, c: Seq<u8>)
    ensures
        edit_distance(a, c) <= edit_distance(a, b) + edit_distance(b, c),
    decreases a.len() + b.len() + c.len(),
{
    if b.len() == 0 {
        lemma_edit_distance_le_max(a, c);
    } else if a.len() == 0 {
        lemma_edit_distance_ge_diff(b, c);
    } else if c.len() == 0 {
        lemma_edit_distance_ge_diff(a, b);
    } else {
        let ap = a.drop_last();
        let bp = b.drop_last();
        let cp = c.drop_last();
        let cxy: nat = if a.last() == b.last() {
            0nat
        } else {
            1nat
        };
        let cyz: nat = if b.last() == c.last() {
            0nat
        } else {
            1nat
        };
        let d1 = edit_distance(a, b);
        let d2 = edit_distance(b, c);
        let del1 = edit_distance(ap, b) + 1;
        let ins1 = edit_distance(a, bp) + 1;
        let sub1 = edit_distance(ap, bp) + cxy;
        let del2 = edit_distance(bp, c) + 1;
        let ins2 = edit_distance(b, cp) + 1;
        let sub2 = edit_distance(bp, cp) + cyz;
        assert(d1 == min3(del1, ins1, sub1));
        assert(d2 == min3(del2, ins2, sub2));
        if d1 == del1 {
            lemma_edit_distance_triangle(ap, b, c);
            lemma_ed_del_bound(a, c);
        } else if d2 == ins2 {
            lemma_edit_distance_triangle(a, b, cp);
            lemma_ed_ins_bound(a, c);
        } else if d1 == ins1 && d2 == del2 {
            lemma_edit_distance_triangle(a, bp, c);
        } else if d1 == ins1 {
            assert(d2 == sub2);
            lemma_edit_distance_triangle(a, bp, c);
            lemma_ed_ins_bound(bp, c);
        } else if d2 == del2 {
            assert(d1 == sub1);
            lemma_edit_distance_triangle(a, bp, c);
            lemma_ed_del_bound(a, bp);
        } else {
            assert(d1 == sub1);
            assert(d2 == sub2);
            lemma_edit_distance_triangle(ap, bp, cp);
            assert(edit_distance(a, c) <= edit_distance(ap, cp) + (if a.last() == c.last() {
                0nat
            } else {
                1nat
            }));
        }
    }
}

/// Computes `edit_distance(a@, b@)` by dynamic programming over an
/// `(m+1) x (n+1)` grid, kept as two rolling rows of length `n+1`.
pub fn calc_dist_bytes(a: &[u8], b: &[u8]) -> (r: usize)
    requires
        a@.len() < usize::MAX,
        b@.len() < usize::MAX,
    ensures
        r == edit_distance(a@, b@),
{
    let len_a = a.len();
    let len_b = b.len();

    if len_a == 0 {
        assert(a@ =~= Seq::<u8>::empty());
        return len_b;
    }
    if len_b == 0 {
        assert(b@ =~= Seq::<u8>::empty());
        return len_a;
    }

    // Row 0: transforming the empty prefix of `a` into `b[..j]` takes
    // `j` insertions.
    let mut prev: Vec<usize> = Vec::new();
    let mut j: usize = 0;
    while j <= len_b
        invariant
            len_b == b@.len(),
            len_b < usize::MAX,
            j <= len_b + 1,
            prev@.len() == j,
            forall|k: int| 0 <= k < j ==> prev@[k] == k,
        decreases len_b + 1 - j,
    {
        prev.push(j);
        j += 1;
    }
    assert forall|k: int| 0 <= k <= len_b implies prev@[k] == edit_distance(
        a@.take(0),
        b@.take(k),
    ) by {
        assert(a@.take(0).len() == 0);
        assert(b@.take(k).len() == k);
    }

    let mut curr: Vec<usize> = vec![0; len_b + 1];

    let mut i: usize = 0;
    while i < len_a
        invariant
            len_a == a@.len(),
            len_b == b@.len(),
            0 < len_a < usize::MAX,
            0 < len_b < usize::MAX,
            i <= len_a,
            prev@.len() == len_b + 1,
            curr@.len() == len_b + 1,
            forall|k: int|
                0 <= k <= len_b ==> prev@[k] == edit_distance(a@.take(i as int), b@.take(k)),
        decreases len_a - i,
    {
        curr[0] = i + 1;
        assert(a@.take(i + 1).len() == i + 1);
        assert(b@.take(0).len() == 0);
        assert(curr@[0] == edit_distance(a@.take(i + 1), b@.take(0)));

        let mut j: usize = 0;
        while j < len_b
            invariant
                len_a == a@.len(),
                len_b == b@.len(),
                0 < len_a < usize::MAX,
                0 < len_b < usize::MAX,
                i < len_a,
                j <= len_b,
                prev@.len() == len_b + 1,
                curr@.len() == len_b + 1,
                forall|k: int|
                    0 <= k <= len_b ==> prev@[k] == edit_distance(a@.take(i as int), b@.take(k)),
                forall|k: int|
                    0 <= k <= j ==> curr@[k] == edit_distance(a@.take(i + 1), b@.take(k)),
            decreases len_b - j,
        {
            let cost: usize = if a[i] == b[j] {
                0
            } else {
                1
            };
            proof {
                lemma_edit_distance_le_max(a@.take(i as int), b@.take(j + 1));
                lemma_edit_distance_le_max(a@.take(i + 1), b@.take(j as int));
                lemma_edit_distance_le_max(a@.take(i as int), b@.take(j as int));
            }
            let d_del = prev[j + 1] + 1;
            let d_ins = curr[j] + 1;
            let d_sub = prev[j] + cost;
            let m = if d_del <= d_ins {
                d_del
            } else {
                d_ins
            };
            let m = if m <= d_sub {
                m
            } else {
                d_sub
            };
            curr[j + 1] = m;
            proof {
                let ap = a@.take(i + 1);
                let bp = b@.take(j + 1);
                assert(ap.drop_last() =~= a@.take(i as int));
                assert(bp.drop_last() =~= b@.take(j as int));
                assert(ap.drop_last() == a@.take(i as int));
                assert(ap.last() == a@[i as int]);
                assert(bp.last() == b@[j as int]);
                assert(curr@[j + 1] == edit_distance(ap, bp));
            }
            j += 1;
        }

        // The finished row becomes the previous row.
        let tmp = prev;
        prev = curr;
        curr = tmp;
        i += 1;
    }

    assert(a@.take(len_a as int) =~= a@);
    assert(b@.take(len_b as int) =~= b@);
    prev[len_b]
}

} // verus!
