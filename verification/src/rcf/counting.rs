use vstd::prelude::*;

verus! {

/// Number of `true` entries in `s`.
pub open spec fn count_true(s: Seq<bool>) -> nat
    decreases s.len(),
{
    if s.len() == 0 {
        0
    } else {
        count_true(s.drop_last()) + if s.last() { 1nat } else { 0nat }
    }
}

pub proof fn lemma_count_true_bound(s: Seq<bool>)
    ensures
        count_true(s) <= s.len(),
    decreases s.len(),
{
    if s.len() > 0 {
        lemma_count_true_bound(s.drop_last());
    }
}

pub proof fn lemma_count_true_push_false(s: Seq<bool>)
    ensures
        count_true(s.push(false)) == count_true(s),
{
    assert(s.push(false).drop_last() =~= s);
}

pub proof fn lemma_count_true_update(s: Seq<bool>, i: int, b: bool)
    requires
        0 <= i < s.len(),
    ensures
        count_true(s.update(i, b)) + (if s[i] { 1int } else { 0int }) == count_true(s) + (if b {
            1int
        } else {
            0int
        }),
    decreases s.len(),
{
    if i == s.len() - 1 {
        assert(s.update(i, b).drop_last() =~= s.drop_last());
    } else {
        assert(s.update(i, b).drop_last() =~= s.drop_last().update(i, b));
        lemma_count_true_update(s.drop_last(), i, b);
    }
}

/// A sequence with a `false` entry counts fewer `true`s than its length.
pub proof fn lemma_count_true_lt_len(s: Seq<bool>, i: int)
    requires
        0 <= i < s.len(),
        !s[i],
    ensures
        count_true(s) < s.len(),
    decreases s.len(),
{
    if i == s.len() - 1 {
        lemma_count_true_bound(s.drop_last());
    } else {
        lemma_count_true_lt_len(s.drop_last(), i);
    }
}

/// `free` lists distinct slots below `limit`, each marked free in
/// `is_free`, and every free slot below `limit` is listed.
pub open spec fn free_list_exact(free: Seq<usize>, limit: int, is_free: Seq<bool>) -> bool {
    &&& forall|j: int|
        0 <= j < free.len() ==> {
            &&& #[trigger] free[j] < limit
            &&& is_free[free[j] as int]
        }
    &&& forall|j: int, k: int| 0 <= j < k < free.len() ==> free[j] != free[k]
    &&& forall|i: int| 0 <= i < limit && #[trigger] is_free[i] ==> free.contains(i as usize)
}

/// Decide [`free_list_exact`].
pub fn check_free_list(free: &[usize], limit: usize, is_free: &[bool]) -> (b: bool)
    requires
        limit <= is_free@.len(),
    ensures
        b == free_list_exact(free@, limit as int, is_free@),
{
    let mut seen: Vec<bool> = Vec::new();
    let mut c: usize = 0;
    while c < limit
        invariant
            c <= limit,
            seen@.len() == c,
            forall|x: int| 0 <= x < c ==> !#[trigger] seen@[x],
        decreases limit - c,
    {
        seen.push(false);
        c = c + 1;
    }
    let mut j: usize = 0;
    while j < free.len()
        invariant
            limit <= is_free@.len(),
            seen@.len() == limit,
            j <= free@.len(),
            forall|k: int|
                0 <= k < j ==> {
                    &&& #[trigger] free@[k] < limit
                    &&& is_free@[free@[k] as int]
                },
            forall|k: int, m: int| 0 <= k < m < j ==> free@[k] != free@[m],
            forall|x: int|
                0 <= x < limit ==> (#[trigger] seen@[x] <==> free@.subrange(0, j as int).contains(
                    x as usize,
                )),
        decreases free.len() - j,
    {
        let idx = free[j];
        if idx >= limit || !is_free[idx] || seen[idx] {
            proof {
                if idx < limit && idx < is_free@.len() && is_free@[idx as int] && seen@[idx as int] {
                    let k = choose|k: int|
                        0 <= k < j && free@.subrange(0, j as int)[k] == idx;
                    assert(free@[k] == free@[j as int]);
                }
            }
            return false;
        }
        proof {
            assert forall|k: int| 0 <= k < j implies free@[k] != idx by {
                if free@[k] == idx {
                    assert(free@.subrange(0, j as int)[k] == idx);
                }
            }
        }
        let ghost before = seen@;
        seen.set(idx, true);
        proof {
            assert forall|x: int| 0 <= x < limit implies (#[trigger] seen@[x]
                <==> free@.subrange(0, j + 1).contains(x as usize)) by {
                let pre = free@.subrange(0, j as int);
                let post = free@.subrange(0, j + 1);
                assert(post =~= pre.push(idx));
                if x == idx {
                    assert(post[j as int] == idx);
                } else {
                    assert(seen@[x] == before[x]);
                    if post.contains(x as usize) {
                        let k = choose|k: int| 0 <= k < post.len() && post[k] == x as usize;
                        assert(pre[k] == x as usize);
                    }
                    if pre.contains(x as usize) {
                        let k = choose|k: int| 0 <= k < pre.len() && pre[k] == x as usize;
                        assert(post[k] == x as usize);
                    }
                }
            }
        }
        j = j + 1;
    }
    proof {
        assert(free@.subrange(0, free@.len() as int) =~= free@);
    }
    let mut i: usize = 0;
    while i < limit
        invariant
            limit <= is_free@.len(),
            seen@.len() == limit,
            i <= limit,
            forall|x: int| 0 <= x < limit ==> (#[trigger] seen@[x] <==> free@.contains(x as usize)),
            forall|x: int| 0 <= x < i && #[trigger] is_free@[x] ==> free@.contains(x as usize),
        decreases limit - i,
    {
        if is_free[i] && !seen[i] {
            return false;
        }
        i = i + 1;
    }
    true
}

/// Number of `true` entries of `s`.
pub fn count_true_exec(s: &[bool]) -> (n: usize)
    ensures
        n == count_true(s@),
{
    let mut n: usize = 0;
    let mut i: usize = 0;
    while i < s.len()
        invariant
            i <= s@.len(),
            n == count_true(s@.subrange(0, i as int)),
            n <= i,
        decreases s.len() - i,
    {
        proof {
            assert(s@.subrange(0, i + 1).drop_last() =~= s@.subrange(0, i as int));
        }
        if s[i] {
            n = n + 1;
        }
        i = i + 1;
    }
    proof {
        assert(s@.subrange(0, s@.len() as int) =~= s@);
    }
    n
}

} // verus!
