//! Character-level text helpers: equality and substring search on `&str`,
//! specified over the `Seq<char>` views.

use vstd::prelude::*;

verus! {

/// The pattern `p` occurs in `t` starting at position `i`.
pub open spec fn is_match_at(t: Seq<char>, p: Seq<char>, i: int) -> bool {
    0 <= i && i + p.len() <= t.len() && t.subrange(i, i + p.len()) == p
}

/// The pattern `p` occurs somewhere in `t`.
pub open spec fn contains_seq(t: Seq<char>, p: Seq<char>) -> bool {
    exists|i: int| is_match_at(t, p, i)
}

/// The position of the leftmost occurrence of `p` in `t` (meaningful only
/// when `contains_seq(t, p)` holds).
pub open spec fn first_match(t: Seq<char>, p: Seq<char>) -> int {
    choose|i: int|
        is_match_at(t, p, i) && (forall|j: int| 0 <= j < i ==> !is_match_at(t, p, j))
}

/// A position that matches and has no match before it is the leftmost one.
pub proof fn lemma_first_match_is(t: Seq<char>, p: Seq<char>, i: int)
    requires
        is_match_at(t, p, i),
        forall|j: int| 0 <= j < i ==> !is_match_at(t, p, j),
    ensures
        contains_seq(t, p),
        first_match(t, p) == i,
{
    assert(contains_seq(t, p));
    let f = first_match(t, p);
    assert(is_match_at(t, p, f) && (forall|j: int| 0 <= j < f ==> !is_match_at(t, p, j)));
    if f < i {
        assert(!is_match_at(t, p, f));
    }
    if i < f {
        assert(!is_match_at(t, p, i));
    }
}

/// Character-for-character equality of two string slices.
pub fn str_eq(a: &str, b: &str) -> (r: bool)
    ensures
        r == (a@ == b@),
{
    let n = a.unicode_len();
    if n != b.unicode_len() {
        return false;
    }
    let mut i: usize = 0;
    while i < n
        invariant
            i <= n,
            n == a@.len(),
            n == b@.len(),
            forall|k: int| 0 <= k < i ==> a@[k] == b@[k],
        decreases n - i,
    {
        if a.get_char(i) != b.get_char(i) {
            return false;
        }
        i = i + 1;
    }
    proof {
        assert(a@ =~= b@);
    }
    true
}

/// The position of the leftmost occurrence of `p` in `t`, or `None` when `p`
/// does not occur in `t`.
pub fn find_sub(t: &str, p: &str) -> (r: Option<usize>)
    ensures
        match r {
            Some(i) => {
                &&& is_match_at(t@, p@, i as int)
                &&& forall|j: int| 0 <= j < i ==> !is_match_at(t@, p@, j)
                &&& contains_seq(t@, p@)
                &&& first_match(t@, p@) == i
            },
            None => !contains_seq(t@, p@),
        },
{
    let n = t.unicode_len();
    let m = p.unicode_len();
    if m > n {
        return None;
    }
    let mut i: usize = 0;
    while i <= n - m
        invariant
            m <= n,
            n == t@.len(),
            m == p@.len(),
            i <= n - m + 1,
            forall|j: int| 0 <= j < i ==> !is_match_at(t@, p@, j),
        decreases n - m + 1 - i,
    {
        let mut j: usize = 0;
        let mut ok = true;
        while j < m
            invariant
                i + m <= n,
                n == t@.len(),
                m == p@.len(),
                j <= m,
                ok <==> (forall|k: int| 0 <= k < j ==> t@[i + k] == p@[k]),
            decreases m - j,
        {
            if t.get_char(i + j) != p.get_char(j) {
                proof {
                    assert(t@[i + j] != p@[j as int]);
                }
                ok = false;
                j = m;
            } else {
                j = j + 1;
            }
        }
        if ok {
            proof {
                assert(t@.subrange(i as int, i + m) =~= p@);
                lemma_first_match_is(t@, p@, i as int);
            }
            return Some(i);
        }
        proof {
            let k = choose|k: int| 0 <= k < m && t@[i + k] != p@[k];
            assert(t@.subrange(i as int, i + m)[k] == t@[i + k]);
            assert(!is_match_at(t@, p@, i as int));
        }
        i = i + 1;
    }
    proof {
        assert forall|j: int| !is_match_at(t@, p@, j) by {
            if 0 <= j && j + p@.len() <= t@.len() {
                assert(j < i);
            }
        }
    }
    None
}

} // verus!
