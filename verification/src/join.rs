//! Joining two observed AS paths at their deepest shared AS: branch-point
//! selection and assembly of the candidate end-to-end path.

use vstd::prelude::*;

verus! {

/// A branch point as mathematical indices.
pub open spec fn opt_pair_view(o: Option<(usize, usize)>) -> Option<(int, int)> {
    match o {
        None => None,
        Some(p) => Some((p.0 as int, p.1 as int)),
    }
}

/// The branch point chosen after scanning the first `n` elements of `a` in
/// order: for each element present in `b`, the candidate pair is its index
/// in `a` together with the first index of that element in `b`; the pair
/// with the greatest index sum is kept, and on equal sums the later pair
/// wins.
pub open spec fn branch_point_upto(a: Seq<u64>, b: Seq<u64>, n: int) -> Option<(int, int)>
    decreases n,
{
    if n <= 0 {
        None
    } else {
        let prev = branch_point_upto(a, b, n - 1);
        match b.index_of_first(a[n - 1]) {
            None => prev,
            Some(j) => match prev {
                None => Some((n - 1, j)),
                Some(p) => if p.0 + p.1 > (n - 1) + j {
                    prev
                } else {
                    Some((n - 1, j))
                },
            },
        }
    }
}

/// The branch point of two paths: the deepest joint position, or `None`
/// when the paths share no AS.
pub open spec fn branch_point(a: Seq<u64>, b: Seq<u64>) -> Option<(int, int)> {
    branch_point_upto(a, b, a.len() as int)
}

/// The joined candidate path: `a` reversed from the branch point to its
/// end, followed by the tail of `b` after the branch point. The joining AS
/// appears exactly once, as the leading element of the reversed slice.
pub open spec fn join_paths(a: Seq<u64>, b: Seq<u64>) -> Option<Seq<u64>> {
    match branch_point(a, b) {
        None => None,
        Some(p) => Some(
            a.subrange(p.0, a.len() as int).reverse() + b.subrange(p.1 + 1, b.len() as int),
        ),
    }
}

/// The branch point scanned up to `n` is the deepest candidate pair among
/// the first `n` elements of `a`: it is itself a candidate (its second
/// index is the first occurrence in `b`), no candidate has a greater index
/// sum, and on equal sums no candidate lies later in `a`.
pub proof fn lemma_branch_point_upto_char(a: Seq<u64>, b: Seq<u64>, n: int)
    requires
        0 <= n <= a.len(),
    ensures
        match branch_point_upto(a, b, n) {
            None => forall|i: int, j: int| 0 <= i < n && 0 <= j < b.len() ==> a[i] != b[j],
            Some(p) => {
                &&& 0 <= p.0 < n
                &&& b.index_of_first(a[p.0]) == Some(p.1)
                &&& 0 <= p.1 < b.len()
                &&& a[p.0] == b[p.1]
                &&& (forall|i: int|
                    0 <= i < n ==> (#[trigger] b.index_of_first(a[i]) matches Some(j) ==> i + j
                        <= p.0 + p.1 && (i + j == p.0 + p.1 ==> i <= p.0)))
            },
        },
    decreases n,
{
    if n > 0 {
        lemma_branch_point_upto_char(a, b, n - 1);
        b.index_of_first_ensures(a[n - 1]);
        match branch_point_upto(a, b, n) {
            None => {
                assert forall|i: int, j: int|
                    0 <= i < n && 0 <= j < b.len() implies a[i] != b[j] by {
                    if i == n - 1 && a[i] == b[j] {
                        assert(b.contains(a[n - 1]));
                    }
                }
            },
            Some(p) => {
                assert forall|i: int|
                    0 <= i < n implies (#[trigger] b.index_of_first(a[i]) matches Some(j) ==> i + j
                    <= p.0 + p.1 && (i + j == p.0 + p.1 ==> i <= p.0)) by {
                    if i < n - 1 {
                        if branch_point_upto(a, b, n - 1) is None {
                            if b.index_of_first(a[i]) is Some {
                                b.index_of_first_ensures(a[i]);
                            }
                        }
                    }
                }
            },
        }
    }
}

/// Law: join identity. When the two paths share exactly one AS, at
/// positions (i, j), the join is `a` reversed from `i` followed by the
/// tail of `b` after `j`, and its length is `(|a| - i) + (|b| - j - 1)`.
pub proof fn lemma_join_identity(a: Seq<u64>, b: Seq<u64>, i: int, j: int)
    requires
        0 <= i < a.len(),
        0 <= j < b.len(),
        a[i] == b[j],
        forall|i2: int, j2: int|
            0 <= i2 < a.len() && 0 <= j2 < b.len() && a[i2] == b[j2] ==> i2 == i && j2 == j,
    ensures
        branch_point(a, b) == Some((i, j)),
        join_paths(a, b) == Some(
            a.subrange(i, a.len() as int).reverse() + b.subrange(j + 1, b.len() as int),
        ),
        join_paths(a, b)->Some_0.len() == (a.len() - i) + (b.len() - j - 1),
{
    lemma_branch_point_upto_char(a, b, a.len() as int);
    match branch_point(a, b) {
        None => {
            assert(a[i] != b[j]);
        },
        Some(p) => {
            assert(a[p.0] == b[p.1]);
            assert(p.0 == i && p.1 == j);
        },
    }
}

/// Law: join self. Joining a duplicate-free path with itself chooses the
/// deepest matching index pair (m, m), with m the last index, and yields
/// the single-element path holding the last AS. (A path with a repeated
/// AS may join at an earlier pair instead.)
pub proof fn lemma_join_self(p: Seq<u64>)
    requires
        p.len() >= 1,
        forall|i: int, j: int| 0 <= i < j < p.len() ==> p[i] != p[j],
    ensures
        branch_point(p, p) == Some((p.len() - 1, p.len() - 1)),
        join_paths(p, p) == Some(seq![p.last()]),
{
    let m = p.len() - 1;
    lemma_branch_point_upto_char(p, p, p.len() as int);
    assert forall|k: int| 0 <= k < p.len() implies #[trigger] p.index_of_first(p[k]) == Some(
        k,
    ) by {
        p.index_of_first_ensures(p[k]);
        assert(p.contains(p[k]));
        match p.index_of_first(p[k]) {
            None => {},
            Some(f) => {
                if f < k {
                    assert(p[f] == p[k]);
                } else if f > k {
                    assert(p[k] != p[k]);
                }
            },
        }
    }
    match branch_point(p, p) {
        None => {
            assert(p[m] == p[m]);
            assert(false);
        },
        Some(q) => {
            assert(p.index_of_first(p[q.0]) == Some(q.0));
            assert(q.1 == q.0);
            assert(p.index_of_first(p[m]) matches Some(j) ==> m + j <= q.0 + q.1);
            assert(m + m <= q.0 + q.1);
            assert(q.0 == m && q.1 == m);
        },
    }
    let joined = p.subrange(m, p.len() as int).reverse() + p.subrange(m + 1, p.len() as int);
    assert(joined =~= seq![p.last()]);
}

/// Keeps the deeper of a previously retained index pair and a fresh one:
/// the retained pair survives only when its index sum is strictly greater.
pub fn choose_best_option(pair: (usize, usize), current: (usize, usize)) -> (r: (usize, usize))
    ensures
        r == (if current.0 + current.1 > pair.0 + pair.1 {
            current
        } else {
            pair
        }),
{
    if (current.0 as u128) + (current.1 as u128) > (pair.0 as u128) + (pair.1 as u128) {
        current
    } else {
        pair
    }
}

/// The first index of `x` in `b`, if `x` occurs there.
fn position_of(b: &Vec<u64>, x: u64) -> (r: Option<usize>)
    ensures
        match r {
            None => b@.index_of_first(x).is_none(),
            Some(j) => j < b@.len() && b@.index_of_first(x) == Some(j as int),
        },
{
    proof {
        b@.index_of_first_ensures(x);
    }
    let mut j: usize = 0;
    while j < b.len()
        invariant
            j <= b@.len(),
            forall|k: int| 0 <= k < j ==> b@[k] != x,
            match b@.index_of_first(x) {
                None => !b@.contains(x),
                Some(f) => 0 <= f < b@.len() && b@[f] == x && (forall|k: int|
                    0 <= k < f ==> b@[k] != x),
            },
        decreases b@.len() - j,
    {
        if b[j] == x {
            return Some(j);
        }
        j += 1;
    }
    assert(!b@.contains(x));
    None
}

/// Finds the pair of indices (i, j) with `a[i] == b[j]` that maximizes
/// `i + j`, scanning `a` in order and taking for each element its first
/// position in `b`; on equal sums the pair found later is retained.
/// Returns `None` when the paths share no AS.
pub fn find_branching_point(a: &Vec<u64>, b: &Vec<u64>) -> (r: Option<(usize, usize)>)
    ensures
        opt_pair_view(r) == branch_point(a@, b@),
        (r matches Some(p) ==> p.0 < a@.len() && p.1 < b@.len() && a@[p.0 as int] == b@[p.1 as int]),
{
    let mut ret: Option<(usize, usize)> = None;
    let mut ai: usize = 0;
    while ai < a.len()
        invariant
            ai <= a@.len(),
            opt_pair_view(ret) == branch_point_upto(a@, b@, ai as int),
            (ret matches Some(p) ==> p.0 < a@.len() && p.1 < b@.len()
                && a@[p.0 as int] == b@[p.1 as int]),
        decreases a@.len() - ai,
    {
        if let Some(bi) = position_of(b, a[ai]) {
            proof {
                b@.index_of_first_ensures(a@[ai as int]);
            }
            let default = (ai, bi);
            ret = match ret {
                None => Some(default),
                Some(cur) => Some(choose_best_option(default, cur)),
            };
        }
        ai += 1;
    }
    ret
}

/// Builds the candidate end-to-end path from the two observed paths, or
/// returns `None` when they share no AS.
pub fn build_path(a: &Vec<u64>, b: &Vec<u64>) -> (r: Option<Vec<u64>>)
    ensures
        match r {
            None => join_paths(a@, b@).is_none(),
            Some(v) => join_paths(a@, b@) == Some(v@),
        },
{
    if let Some(branches) = find_branching_point(a, b) {
        let i = branches.0;
        let j = branches.1;
        let blen = b.len();
        assert(i < a@.len() && j < blen);
        let ghost rev_part = a@.subrange(i as int, a@.len() as int).reverse();
        let mut ret: Vec<u64> = Vec::new();
        let mut n: usize = a.len();
        while n > i
            invariant
                i <= n <= a@.len(),
                ret@.len() == a@.len() - n,
                forall|m: int| 0 <= m < ret@.len() ==> ret@[m] == a@[a@.len() - 1 - m],
            decreases n,
        {
            n -= 1;
            ret.push(a[n]);
        }
        assert(ret@ =~= rev_part);
        let mut k: usize = j + 1;
        while k < b.len()
            invariant
                j + 1 <= k <= b@.len(),
                ret@ == rev_part + b@.subrange(j + 1, k as int),
            decreases b@.len() - k,
        {
            let ghost pre = ret@;
            ret.push(b[k]);
            proof {
                assert(pre.push(b@[k as int]) =~= rev_part + b@.subrange(j + 1, k + 1));
            }
            k += 1;
        }
        assert(ret@ =~= rev_part + b@.subrange(j + 1, b@.len() as int));
        Some(ret)
    } else {
        None
    }
}

} // verus!
