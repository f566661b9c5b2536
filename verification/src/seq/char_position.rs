//! Character Position Queries
//!
//! Tables of character positions and frequencies in strings.
//!
//! # Available functions
//!
//! - [`next_pos`]: the next occurrence of each character from each index.
//! - [`prev_pos`]: the previous occurrence of each character from each index.
//! - [`cumulative_count`]: the number of occurrences of each character up
//!   to each index.

use vstd::prelude::*;

verus! {

/// Every character of `s` lies in `l .. r`.
pub open spec fn is_within(s: Seq<u8>, l: u8, r: u8) -> bool {
    forall|i: int| 0 <= i < s.len() ==> l <= #[trigger] s[i] < r
}

/// `j` is the smallest index `>= i` with `s[j] == c`, or `s.len()` if
/// there is none.
pub open spec fn is_next(s: Seq<u8>, i: int, c: u8, j: int) -> bool {
    &&& i <= j <= s.len()
    &&& j < s.len() ==> s[j] == c
    &&& forall|k: int| i <= k < j ==> s[k] != c
}

/// `j` is the largest index `<= i` with `s[j] == c`, or `s.len()` if there
/// is none.
pub open spec fn is_prev(s: Seq<u8>, i: int, c: u8, j: int) -> bool {
    if j == s.len() {
        forall|k: int| 0 <= k <= i ==> s[k] != c
    } else {
        &&& 0 <= j <= i
        &&& s[j] == c
        &&& forall|k: int| j < k <= i ==> s[k] != c
    }
}

/// The number of occurrences of `c` among the first `k` characters of `s`.
pub open spec fn count(s: Seq<u8>, k: int, c: u8) -> nat
    decreases k,
{
    if k <= 0 {
        0
    } else {
        count(s, k - 1, c) + if s[k - 1] == c {
            1nat
        } else {
            0nat
        }
    }
}

/// An occurrence count never exceeds the number of characters counted.
pub proof fn lemma_count_bound(s: Seq<u8>, k: int, c: u8)
    requires
        0 <= k,
    ensures
        count(s, k, c) <= k,
    decreases k,
{
    if k > 0 {
        lemma_count_bound(s, k - 1, c);
    }
}

/// Returns a vector `row` of `n` copies of `x`.
fn filled(x: usize, n: usize) -> (row: Vec<usize>)
    ensures
        row@.len() == n,
        forall|i: int| 0 <= i < n ==> row@[i] == x,
{
    let mut row: Vec<usize> = Vec::with_capacity(n);
    let mut i: usize = 0;
    while i < n
        invariant
            i <= n,
            row@.len() == i,
            forall|j: int| 0 <= j < i ==> row@[j] == x,
        decreases n - i,
    {
        row.push(x);
        i += 1;
    }
    row
}

/// Returns a copy of `row`.
fn copy_of(row: &Vec<usize>) -> (copy: Vec<usize>)
    ensures
        copy@ == row@,
{
    let mut copy: Vec<usize> = Vec::with_capacity(row.len());
    let mut i: usize = 0;
    while i < row.len()
        invariant
            i <= row@.len(),
            copy@ == row@.subrange(0, i as int),
        decreases row@.len() - i,
    {
        copy.push(row[i]);
        proof {
            assert(copy@ =~= row@.subrange(0, i + 1));
        }
        i += 1;
    }
    proof {
        assert(row@.subrange(0, row@.len() as int) =~= row@);
    }
    copy
}

/// Computes the next occurrence of each character from each index.
///
/// ## Returns
///
/// A vector `next` where `next[i][c - l]` is the smallest index `j >= i`
/// with `s[j] == c`, or `n` (the length of `s`) if there is none.
///
/// ## Complexity
///
/// `O(n * (r - l))`, where `n = s.len()`.
pub fn next_pos(s: &[u8], l: u8, r: u8) -> (next: Vec<Vec<usize>>)
    requires
        l <= r,
        is_within(s@, l, r),
    ensures
        next@.len() == s@.len(),
        forall|i: int| 0 <= i < s@.len() ==> (#[trigger] next@[i])@.len() == r - l,
        forall|i: int, c: u8|
            0 <= i < s@.len() && l <= c < r ==> is_next(s@, i, c, #[trigger] next@[i]@[c - l] as int),
{
    let n = s.len();
    let mut res: Vec<Vec<usize>> = Vec::with_capacity(n);
    let mut next = filled(n, (r - l) as usize);
    let mut i = n;
    while i > 0
        invariant
            n == s@.len(),
            l <= r,
            is_within(s@, l, r),
            i <= n,
            res@.len() == n - i,
            next@.len() == r - l,
            forall|c: u8| l <= c < r ==> is_next(s@, i as int, c, #[trigger] next@[c - l] as int),
            forall|k: int| 0 <= k < n - i ==> (#[trigger] res@[k])@.len() == r - l,
            forall|k: int, c: u8|
                0 <= k < n - i && l <= c < r ==> is_next(
                    s@,
                    n - 1 - k,
                    c,
                    #[trigger] res@[k]@[c - l] as int,
                ),
        decreases i,
    {
        i -= 1;
        let c = s[i];
        next[(c - l) as usize] = i;
        res.push(copy_of(&next));
    }
    let ghost backwards = res@;
    res.reverse();
    proof {
        assert forall|i: int, c: u8| 0 <= i < n && l <= c < r implies is_next(
            s@,
            i,
            c,
            #[trigger] res@[i]@[c - l] as int,
        ) by {
            assert(res@[i] == backwards[n - 1 - i]);
        }
    }
    res
}

/// Computes the previous occurrence of each character from each index.
///
/// ## Returns
///
/// A vector `prev` where `prev[i][c - l]` is the largest index `j <= i`
/// with `s[j] == c`, or `n` (the length of `s`) if there is none.
///
/// ## Complexity
///
/// `O(n * (r - l))`, where `n = s.len()`.
pub fn prev_pos(s: &[u8], l: u8, r: u8) -> (prev: Vec<Vec<usize>>)
    requires
        l <= r,
        is_within(s@, l, r),
    ensures
        prev@.len() == s@.len(),
        forall|i: int| 0 <= i < s@.len() ==> (#[trigger] prev@[i])@.len() == r - l,
        forall|i: int, c: u8|
            0 <= i < s@.len() && l <= c < r ==> is_prev(s@, i, c, #[trigger] prev@[i]@[c - l] as int),
{
    let n = s.len();
    let mut res: Vec<Vec<usize>> = Vec::with_capacity(n);
    let mut prev = filled(n, (r - l) as usize);
    let mut i: usize = 0;
    while i < n
        invariant
            n == s@.len(),
            l <= r,
            is_within(s@, l, r),
            i <= n,
            res@.len() == i,
            prev@.len() == r - l,
            forall|c: u8| l <= c < r ==> is_prev(s@, i - 1, c, #[trigger] prev@[c - l] as int),
            forall|k: int| 0 <= k < i ==> (#[trigger] res@[k])@.len() == r - l,
            forall|k: int, c: u8|
                0 <= k < i && l <= c < r ==> is_prev(s@, k, c, #[trigger] res@[k]@[c - l] as int),
        decreases n - i,
    {
        let c = s[i];
        prev[(c - l) as usize] = i;
        res.push(copy_of(&prev));
        i += 1;
    }
    res
}

/// Computes the number of occurrences of each character up to each index.
///
/// ## Returns
///
/// A vector `count` where `count[i][c - l]` is the number of occurrences
/// of `c` in `s[0..=i]`.
///
/// ## Complexity
///
/// `O(n * (r - l))`, where `n = s.len()`.
pub fn cumulative_count(s: &[u8], l: u8, r: u8) -> (counts: Vec<Vec<usize>>)
    requires
        l <= r,
        is_within(s@, l, r),
    ensures
        counts@.len() == s@.len(),
        forall|i: int| 0 <= i < s@.len() ==> (#[trigger] counts@[i])@.len() == r - l,
        forall|i: int, c: u8|
            0 <= i < s@.len() && l <= c < r ==> #[trigger] counts@[i]@[c - l] == count(s@, i + 1, c),
{
    let n = s.len();
    let mut res: Vec<Vec<usize>> = Vec::with_capacity(n);
    let mut tally = filled(0, (r - l) as usize);
    let mut i: usize = 0;
    while i < n
        invariant
            n == s@.len(),
            l <= r,
            is_within(s@, l, r),
            i <= n,
            res@.len() == i,
            tally@.len() == r - l,
            forall|c: u8| l <= c < r ==> #[trigger] tally@[c - l] == count(s@, i as int, c),
            forall|k: int| 0 <= k < i ==> (#[trigger] res@[k])@.len() == r - l,
            forall|k: int, c: u8|
                0 <= k < i && l <= c < r ==> #[trigger] res@[k]@[c - l] == count(s@, k + 1, c),
        decreases n - i,
    {
        let c = s[i];
        proof {
            lemma_count_bound(s@, i as int, c);
        }
        tally[(c - l) as usize] += 1;
        res.push(copy_of(&tally));
        i += 1;
    }
    res
}

} // verus!
