//! Levenshtein edit distance and the fuzzy-prefix word match used by the
//! search passes: a query word matches an indexed token when some prefix
//! of the token is within the pass's edit-distance tolerance of the word.

use vstd::prelude::*;

verus! {

/// The smaller of two naturals.
pub open spec fn min2(a: nat, b: nat) -> nat {
    if a <= b {
        a
    } else {
        b
    }
}

/// The Levenshtein edit distance between two character sequences: the
/// least number of single-character insertions, deletions and
/// substitutions turning one into the other.
pub open spec fn edit_dist(a: Seq<char>, b: Seq<char>) -> nat
    decreases a.len() + b.len(),
{
    if a.len() == 0 {
        b.len()
    } else if b.len() == 0 {
        a.len()
    } else {
        let sub_cost: nat = if a.last() == b.last() {
            0
        } else {
            1
        };
        min2(
            min2(edit_dist(a.drop_last(), b) + 1, edit_dist(a, b.drop_last()) + 1),
            edit_dist(a.drop_last(), b.drop_last()) + sub_cost,
        )
    }
}

/// Distances capped at 3: the passes only distinguish tolerances 0..=2.
pub open spec fn cap3(n: nat) -> nat {
    if n > 3 {
        3
    } else {
        n
    }
}

/// A query word matches a token at tolerance `d` when some prefix of the
/// token is within edit distance `d` of the word.
pub open spec fn spec_word_match(w: Seq<char>, t: Seq<char>, d: nat) -> bool {
    exists|j: int| 0 <= j <= t.len() && edit_dist(w, t.take(j)) <= d
}

/// A match at a strict tolerance is a match at every looser one.
pub proof fn lemma_word_match_monotonic(w: Seq<char>, t: Seq<char>, d1: nat, d2: nat)
    requires
        d1 <= d2,
        spec_word_match(w, t, d1),
    ensures
        spec_word_match(w, t, d2),
{
    let j = choose|j: int| 0 <= j <= t.len() && edit_dist(w, t.take(j)) <= d1;
    assert(0 <= j <= t.len() && edit_dist(w, t.take(j)) <= d2);
}

/// Two sequences are at distance zero exactly when they are equal.
pub proof fn lemma_edit_dist_zero(a: Seq<char>, b: Seq<char>)
    ensures
        edit_dist(a, b) == 0 <==> a == b,
    decreases a.len() + b.len(),
{
    if a.len() == 0 {
        if b.len() == 0 {
            assert(a =~= b);
        } else {
            assert(a != b);
        }
    } else if b.len() == 0 {
        assert(a != b);
    } else {
        lemma_edit_dist_zero(a.drop_last(), b.drop_last());
        if edit_dist(a, b) == 0 {
            assert(edit_dist(a.drop_last(), b.drop_last()) == 0 && a.last() == b.last());
            assert(a.drop_last() == b.drop_last());
            assert(a.len() == b.len());
            assert forall|i: int| 0 <= i < a.len() implies a[i] == b[i] by {
                if i < a.len() - 1 {
                    assert(a[i] == a.drop_last()[i]);
                    assert(b[i] == b.drop_last()[i]);
                }
            }
            assert(a =~= b);
        }
        if a == b {
            assert(a.drop_last() =~= b.drop_last());
            assert(a.last() == b.last());
            assert(edit_dist(a.drop_last(), b.drop_last()) == 0);
        }
    }
}

/// The strictest pass matches exactly the prefixes: a word matches a
/// token at tolerance zero precisely when the word is a prefix of the
/// token.
pub proof fn lemma_pass_zero_is_exact_prefix(w: Seq<char>, t: Seq<char>)
    ensures
        spec_word_match(w, t, 0) <==> (w.len() <= t.len() && t.take(w.len() as int) == w),
{
    if spec_word_match(w, t, 0) {
        let j = choose|j: int| 0 <= j <= t.len() && edit_dist(w, t.take(j)) <= 0;
        lemma_edit_dist_zero(w, t.take(j));
        assert(t.take(j) == w);
        assert(j == w.len());
    }
    if w.len() <= t.len() && t.take(w.len() as int) == w {
        lemma_edit_dist_zero(w, t.take(w.len() as int));
        assert(edit_dist(w, t.take(w.len() as int)) <= 0);
        assert(0 <= w.len() <= t.len());
    }
}

/// The distance table's recurrence, stated over prefixes.
proof fn lemma_edit_dist_recurrence(w: Seq<char>, t: Seq<char>, i: int, j: int)
    requires
        1 <= i <= w.len(),
        1 <= j <= t.len(),
    ensures
        edit_dist(w.take(i), t.take(j)) == min2(
            min2(edit_dist(w.take(i - 1), t.take(j)) + 1, edit_dist(w.take(i), t.take(j - 1)) + 1),
            edit_dist(w.take(i - 1), t.take(j - 1)) + (if w[i - 1] == t[j - 1] {
                0nat
            } else {
                1nat
            }),
        ),
{
    let a = w.take(i);
    let b = t.take(j);
    assert(a.len() == i && b.len() == j);
    assert(a.last() == w[i - 1]);
    assert(b.last() == t[j - 1]);
    assert(a.drop_last() =~= w.take(i - 1));
    assert(b.drop_last() =~= t.take(j - 1));
}

/// Capping after adding a unit cost equals adding to the capped value
/// and capping again.
proof fn lemma_cap3_add(x: nat, c: nat)
    requires
        c <= 1,
    ensures
        cap3(x + c) == if cap3(x) + c > 3 {
            3nat
        } else {
            cap3(x) + c
        },
{
}

fn cap_of(x: usize) -> (r: u8)
    ensures
        r == cap3(x as nat),
{
    if x >= 3 {
        3
    } else {
        x as u8
    }
}

fn min_u8(a: u8, b: u8) -> (r: u8)
    ensures
        r == min2(a as nat, b as nat),
{
    if a <= b {
        a
    } else {
        b
    }
}

/// Decides [`spec_word_match`] by dynamic programming over capped
/// distances.
pub fn word_fuzzy_match(w: &Vec<char>, t: &Vec<char>, d: u8) -> (b: bool)
    requires
        d <= 2,
    ensures
        b == spec_word_match(w@, t@, d as nat),
{
    let m = w.len();
    let n = t.len();
    // Row 0: distances from the empty word prefix.
    let mut prev: Vec<u8> = Vec::new();
    prev.push(0);
    let mut j: usize = 0;
    while j < n
        invariant
            j <= n == t@.len(),
            prev@.len() == j + 1,
            forall|k: int| 0 <= k <= j ==> prev@[k] == cap3(k as nat),
        decreases n - j,
    {
        prev.push(cap_of(j + 1));
        j = j + 1;
    }
    proof {
        assert(w@.take(0) =~= Seq::<char>::empty());
        assert forall|k: int| 0 <= k <= n implies prev@[k] == cap3(
            edit_dist(w@.take(0), t@.take(k)),
        ) by {
            assert(t@.take(k).len() == k);
            assert(edit_dist(w@.take(0), t@.take(k)) == k);
        }
    }
    let mut r: usize = 0;
    while r < m
        invariant
            r <= m == w@.len(),
            n == t@.len(),
            d <= 2,
            prev@.len() == n + 1,
            forall|k: int|
                0 <= k <= n ==> prev@[k] == cap3(edit_dist(w@.take(r as int), t@.take(k))),
        decreases m - r,
    {
        let mut cur: Vec<u8> = Vec::new();
        cur.push(cap_of(r + 1));
        proof {
            assert(t@.take(0) =~= Seq::<char>::empty());
            assert(w@.take(r + 1).len() == r + 1);
            assert(edit_dist(w@.take(r + 1), t@.take(0)) == r + 1);
        }
        let mut j2: usize = 0;
        while j2 < n
            invariant
                j2 <= n == t@.len(),
                r < m == w@.len(),
                prev@.len() == n + 1,
                forall|k: int|
                    0 <= k <= n ==> prev@[k] == cap3(edit_dist(w@.take(r as int), t@.take(k))),
                cur@.len() == j2 + 1,
                forall|k: int|
                    0 <= k <= j2 ==> cur@[k] == cap3(edit_dist(w@.take(r + 1), t@.take(k))),
            decreases n - j2,
        {
            let del = prev[j2 + 1];
            let ins = cur[j2];
            let sub = prev[j2];
            let cost: u8 = if w[r] == t[j2] {
                0
            } else {
                1
            };
            let cand1 = min_u8(if del >= 3 {
                3
            } else {
                del + 1
            }, if ins >= 3 {
                3
            } else {
                ins + 1
            });
            let sub_total = if sub + cost > 3 {
                3
            } else {
                sub + cost
            };
            let val = min_u8(cand1, sub_total);
            proof {
                let i = r + 1;
                let jj = j2 + 1;
                lemma_edit_dist_recurrence(w@, t@, i as int, jj as int);
                let e_del = edit_dist(w@.take(i - 1), t@.take(jj as int));
                let e_ins = edit_dist(w@.take(i as int), t@.take(jj - 1));
                let e_sub = edit_dist(w@.take(i - 1), t@.take(jj - 1));
                lemma_cap3_add(e_del, 1);
                lemma_cap3_add(e_ins, 1);
                lemma_cap3_add(e_sub, cost as nat);
                assert(val == cap3(edit_dist(w@.take(i as int), t@.take(jj as int))));
            }
            cur.push(val);
            j2 = j2 + 1;
        }
        prev = cur;
        r = r + 1;
    }
    proof {
        assert(w@.take(m as int) =~= w@);
    }
    // Scan the final row for a prefix within tolerance.
    let rowlen = prev.len();
    let mut j3: usize = 0;
    let mut found = false;
    while j3 < rowlen
        invariant
            j3 <= rowlen,
            n == t@.len(),
            d <= 2,
            prev@.len() == rowlen == n + 1,
            forall|k: int| 0 <= k <= n ==> prev@[k] == cap3(edit_dist(w@, t@.take(k))),
            found == exists|k: int| 0 <= k < j3 && edit_dist(w@, t@.take(k)) <= d,
        decreases rowlen - j3,
    {
        if prev[j3] <= d {
            proof {
                assert(cap3(edit_dist(w@, t@.take(j3 as int))) <= d);
                assert(edit_dist(w@, t@.take(j3 as int)) <= d);
            }
            found = true;
        } else {
            proof {
                assert(!(edit_dist(w@, t@.take(j3 as int)) <= d));
            }
        }
        j3 = j3 + 1;
    }
    found
}

} // verus!
